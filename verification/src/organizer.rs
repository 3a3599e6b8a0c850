//! Organizer: loads taxonomic records from CSV text, builds the
//! normalized-key destination index (last write wins), and plans a move for
//! every discovered file — matched files go under their record's subpath,
//! unmatched ones under `unknown`, so no file is ever dropped. The caller
//! performs the planned filesystem moves and tallies the outcomes.

use vstd::prelude::*;
use vstd::hash_map::StringHashMap;
use vstd::hash_set::StringHashSet;
use crate::paths;
use crate::records;
use crate::records::{ImgRecord, LoadError, RecView};

verus! {

/// The view of a destination index with its subpaths read as character
/// sequences.
pub open spec fn strmap(m: Map<Seq<char>, String>) -> Map<Seq<char>, Seq<char>> {
    m.map_values(|v: String| v@)
}

/// The index that inserting every record's key, in order, into `base`
/// leaves: the last record with a given key wins.
pub open spec fn index_from(base: Map<Seq<char>, Seq<char>>, recs: Seq<RecView>) -> Map<
    Seq<char>,
    Seq<char>,
>
    decreases recs.len(),
{
    if recs.len() == 0 {
        base
    } else {
        index_from(base, recs.drop_last()).insert(
            records::key_of(recs.last()),
            records::subpath_of(recs.last()),
        )
    }
}

/// The keys whose insertion overwrote an earlier entry, in insertion order:
/// one warning for each record that lost data to a later row.
pub open spec fn dups_from(base: Map<Seq<char>, Seq<char>>, recs: Seq<RecView>) -> Seq<Seq<char>>
    decreases recs.len(),
{
    if recs.len() == 0 {
        Seq::empty()
    } else {
        dups_from(base, recs.drop_last()) + (if index_from(base, recs.drop_last()).contains_key(
            records::key_of(recs.last()),
        ) {
            seq![records::key_of(recs.last())]
        } else {
            Seq::<Seq<char>>::empty()
        })
    }
}

/// The distinct taxon names of a record sequence.
pub open spec fn taxa_of(recs: Seq<RecView>) -> Set<Seq<char>> {
    Set::new(|t: Seq<char>| exists|i: int| 0 <= i < recs.len() && recs[i].scientific_id == t)
}

/// What a parsed CSV text holds: its header and its data rows. The `csv`
/// crate's reading is a function of the text alone; a text it cannot read
/// whole has no table.
pub uninterp spec fn csv_table_of(text: Seq<char>) -> Option<
    (Seq<Seq<char>>, Seq<Seq<Seq<char>>>),
>;

/// Relies on csv::Reader (crate csv): reading CSV text with a header row
/// yields the header record and then the data rows; a text with an
/// unreadable row (bad quoting, bad encoding, a field count differing from
/// the header's) is an error for the whole read.
#[verifier::external_body]
fn read_csv(text: &str) -> (r: Result<(Vec<String>, Vec<Vec<String>>), String>)
    ensures
        match r {
            Ok(t) => csv_table_of(text@) == Some((t.0.deep_view(), t.1.deep_view())),
            Err(_) => csv_table_of(text@) is None,
        },
{
    let mut rdr = csv::Reader::from_reader(text.as_bytes());
    let header: Vec<String> = match rdr.headers() {
        Ok(h) => h.iter().map(|f| f.to_string()).collect(),
        Err(e) => return Err(e.to_string()),
    };
    let mut rows: Vec<Vec<String>> = Vec::new();
    for rec in rdr.records() {
        match rec {
            Ok(row) => rows.push(row.iter().map(|f| f.to_string()).collect()),
            Err(e) => return Err(e.to_string()),
        }
    }
    Ok((header, rows))
}

/// One planned move: where a discovered file stands, where it goes, and
/// whether a record matched it.
pub struct MovePlan {
    pub source: String,
    pub dest: String,
    pub matched: bool,
}

/// The mathematical shadow of a planned move.
pub struct PlanView {
    pub source: Seq<char>,
    pub dest: Seq<char>,
    pub matched: bool,
}

impl View for MovePlan {
    type V = PlanView;

    open spec fn view(&self) -> PlanView {
        PlanView { source: self.source@, dest: self.dest@, matched: self.matched }
    }
}

impl DeepView for MovePlan {
    type V = PlanView;

    open spec fn deep_view(&self) -> PlanView {
        self@
    }
}

/// The destination of a discovered file: under the indexed subpath of its
/// key when one exists, under `unknown` otherwise, keeping its file name.
pub open spec fn dest_for(
    index: Map<Seq<char>, Seq<char>>,
    out_dir: Seq<char>,
    p: Seq<char>,
) -> Seq<char> {
    let sub = if index.contains_key(records::key_of_path(p)) {
        index[records::key_of_path(p)]
    } else {
        "unknown"@
    };
    paths::join_spec(paths::join_spec(out_dir, sub), paths::name_of(p))
}

/// The plan that a discovered file must get.
pub open spec fn plan_ok(
    index: Map<Seq<char>, Seq<char>>,
    out_dir: Seq<char>,
    p: Seq<char>,
    plan: PlanView,
) -> bool {
    &&& plan.source == p
    &&& plan.matched == index.contains_key(records::key_of_path(p))
    &&& plan.dest == dest_for(index, out_dir, p)
}

/// A file whose key the index does not hold is still planned, never
/// dropped: it is routed under `unknown`, keeping its file name.
pub proof fn lemma_unmatched_routed(
    index: Map<Seq<char>, Seq<char>>,
    out_dir: Seq<char>,
    p: Seq<char>,
    plan: PlanView,
)
    requires
        plan_ok(index, out_dir, p, plan),
        !index.contains_key(records::key_of_path(p)),
    ensures
        !plan.matched,
        plan.dest == paths::join_spec(
            paths::join_spec(out_dir, "unknown"@),
            paths::name_of(p),
        ),
{
}

/// Everything organize decides for one run: the planned moves, one per
/// discovered file, and the keys that were overwritten while the index was
/// built (the observable duplicate-key warnings).
pub struct OrganizePlan {
    pub moves: Vec<MovePlan>,
    pub duplicate_keys: Vec<String>,
}

pub struct Organizer {
    img_records: StringHashMap<String>,
    records: Vec<ImgRecord>,
    taxa: StringHashSet,
}

impl Organizer {
    /// The destination index: normalized key to destination subpath.
    pub closed spec fn index_view(&self) -> Map<Seq<char>, String> {
        self.img_records@
    }

    /// The records loaded so far, in CSV order.
    pub closed spec fn records_view(&self) -> Seq<RecView> {
        self.records.deep_view()
    }

    /// The distinct taxon names seen so far.
    pub closed spec fn taxa_view(&self) -> Set<Seq<char>> {
        self.taxa@
    }

    pub fn new() -> (r: Organizer)
        ensures
            r.records_view() == Seq::<RecView>::empty(),
            r.index_view() == Map::<Seq<char>, String>::empty(),
            r.taxa_view() == Set::<Seq<char>>::empty(),
    {
        let r = Organizer {
            img_records: StringHashMap::new(),
            records: Vec::new(),
            taxa: StringHashSet::new(),
        };
        proof {
            assert(r.records_view() =~= Seq::<RecView>::empty());
        }
        r
    }

    /// The number of records loaded.
    pub fn record_count(&self) -> (r: usize)
        ensures
            r == self.records_view().len(),
    {
        self.records.len()
    }

    /// The number of distinct taxon names seen.
    pub fn taxon_count(&self) -> (r: usize)
        ensures
            r == self.taxa_view().len(),
    {
        self.taxa.len()
    }

    /// Parses CSV text and appends its records to the store. The index and
    /// the taxon set are left as they are; `parse_img_records` and
    /// `parse_taxa` fold the new records in.
    pub fn parse_config_csv(&mut self, csv_text: &str) -> (r: Result<(), LoadError>)
        ensures
            final(self).index_view() == old(self).index_view(),
            final(self).taxa_view() == old(self).taxa_view(),
            match r {
                Ok(()) => {
                    let t = csv_table_of(csv_text@).unwrap();
                    &&& csv_table_of(csv_text@) is Some
                    &&& records::table_records_ok(t.0, t.1)
                    &&& final(self).records_view() == old(self).records_view()
                        + records::table_records(t.0, t.1)
                },
                Err(e) => final(self).records_view() == old(self).records_view() && match (
                csv_table_of(csv_text@)) {
                    Some(t) => records::load_error_matches(t.0, t.1, e),
                    None => e is Csv,
                },
            },
    {
        let table = match read_csv(csv_text) {
            Ok(t) => t,
            Err(msg) => {
                return Err(LoadError::Csv(msg));
            },
        };
        let mut got = match records::records_from_table(&table.0, &table.1) {
            Ok(recs) => recs,
            Err(e) => {
                return Err(e);
            },
        };
        let ghost pre = self.records.deep_view();
        let ghost got_view = got.deep_view();
        self.records.append(&mut got);
        proof {
            assert(self.records.deep_view() =~= pre + got_view);
        }
        Ok(())
    }

    /// Builds the destination index from the loaded records, in order, so
    /// that the last record with a given key wins; returns the keys whose
    /// earlier entry was overwritten, as the caller's warnings.
    pub fn parse_img_records(&mut self) -> (dups: Vec<String>)
        ensures
            final(self).records_view() == old(self).records_view(),
            final(self).taxa_view() == old(self).taxa_view(),
            strmap(final(self).index_view()) == index_from(
                strmap(old(self).index_view()),
                old(self).records_view(),
            ),
            dups.deep_view() == dups_from(strmap(old(self).index_view()), old(self).records_view()),
    {
        let ghost base = strmap(old(self).index_view());
        let ghost recs = old(self).records_view();
        let mut dups: Vec<String> = Vec::new();
        let mut i: usize = 0;
        proof {
            assert(recs.take(0) =~= Seq::<RecView>::empty());
            assert(dups.deep_view() =~= dups_from(base, recs.take(0)));
        }
        while i < self.records.len()
            invariant
                i <= self.records@.len(),
                self.records == old(self).records,
                self.taxa == old(self).taxa,
                recs == self.records.deep_view(),
                recs.len() == self.records@.len(),
                strmap(self.index_view()) == index_from(base, recs.take(i as int)),
                dups.deep_view() == dups_from(base, recs.take(i as int)),
            decreases self.records@.len() - i,
        {
            proof {
                assert(recs[i as int] == self.records@[i as int]@);
                assert(recs.take(i as int + 1).drop_last() =~= recs.take(i as int));
                assert(recs.take(i as int + 1).last() == recs[i as int]);
            }
            let key = records::record_key(self.records[i].image_id.as_str());
            let sub = records::record_subpath(&self.records[i]);
            let ghost pre_map = strmap(self.index_view());
            let ghost pre_dups = dups.deep_view();
            if self.img_records.contains_key(key.as_str()) {
                dups.push(key.clone());
                proof {
                    assert(dups.deep_view() =~= pre_dups.push(records::key_of(recs[i as int])));
                    assert(pre_dups.push(records::key_of(recs[i as int])) =~= pre_dups + seq![
                        records::key_of(recs[i as int]),
                    ]);
                }
            } else {
                proof {
                    assert(dups.deep_view() =~= dups_from(base, recs.take(i as int + 1)));
                }
            }
            self.img_records.insert(key, sub);
            proof {
                assert(strmap(self.index_view()) =~= pre_map.insert(
                    records::key_of(recs[i as int]),
                    records::subpath_of(recs[i as int]),
                ));
            }
            i += 1;
        }
        proof {
            assert(recs.take(recs.len() as int) =~= recs);
        }
        dups
    }

    /// Collects the distinct taxon names of the loaded records.
    pub fn parse_taxa(&mut self)
        ensures
            final(self).records_view() == old(self).records_view(),
            final(self).index_view() == old(self).index_view(),
            final(self).taxa_view() == old(self).taxa_view().union(
                taxa_of(old(self).records_view()),
            ),
    {
        let ghost recs = old(self).records_view();
        let mut i: usize = 0;
        proof {
            assert(self.taxa_view() =~= old(self).taxa_view().union(taxa_of(recs.take(0))));
        }
        while i < self.records.len()
            invariant
                i <= self.records@.len(),
                self.records == old(self).records,
                self.img_records == old(self).img_records,
                recs == self.records.deep_view(),
                recs.len() == self.records@.len(),
                self.taxa_view() == old(self).taxa_view().union(taxa_of(recs.take(i as int))),
            decreases self.records@.len() - i,
        {
            proof {
                assert(recs[i as int] == self.records@[i as int]@);
            }
            let ghost pre = self.taxa_view();
            self.taxa.insert(self.records[i].scientific_id.clone());
            proof {
                assert(self.taxa_view() =~= old(self).taxa_view().union(
                    taxa_of(recs.take(i as int + 1)),
                )) by {
                    assert forall|t: Seq<char>|
                        taxa_of(recs.take(i as int + 1)).contains(t) implies pre.contains(t)
                        || t == recs[i as int].scientific_id by {
                        let w = choose|w: int|
                            0 <= w < recs.take(i as int + 1).len() && (#[trigger] recs.take(
                                i as int + 1,
                            )[w]).scientific_id == t;
                        if w < i {
                            assert(recs.take(i as int)[w].scientific_id == t);
                            assert(taxa_of(recs.take(i as int)).contains(t));
                        }
                    }
                    assert forall|t: Seq<char>|
                        taxa_of(recs.take(i as int)).contains(t) implies taxa_of(
                        recs.take(i as int + 1),
                    ).contains(t) by {
                        let w = choose|w: int|
                            0 <= w < recs.take(i as int).len() && (#[trigger] recs.take(
                                i as int,
                            )[w]).scientific_id == t;
                        assert(recs.take(i as int + 1)[w].scientific_id == t);
                    }
                    assert(taxa_of(recs.take(i as int + 1)).contains(
                        recs[i as int].scientific_id,
                    )) by {
                        assert(recs.take(i as int + 1)[i as int].scientific_id
                            == recs[i as int].scientific_id);
                    }
                }
            }
            i += 1;
        }
        proof {
            assert(recs.take(recs.len() as int) =~= recs);
        }
    }

    /// Plans one move per discovered file against the built index: a
    /// matched file goes under its record's subpath, an unmatched one under
    /// `unknown`; nothing is dropped.
    pub fn plan_moves(&self, img_paths: &Vec<String>, output_dir: &str) -> (plans: Vec<MovePlan>)
        ensures
            plans.deep_view().len() == img_paths.deep_view().len(),
            forall|i: int|
                0 <= i < plans.deep_view().len() ==> plan_ok(
                    strmap(self.index_view()),
                    output_dir@,
                    img_paths.deep_view()[i],
                    #[trigger] plans.deep_view()[i],
                ),
    {
        let ghost index = strmap(self.index_view());
        let mut plans: Vec<MovePlan> = Vec::new();
        let mut i: usize = 0;
        while i < img_paths.len()
            invariant
                i <= img_paths@.len(),
                img_paths.deep_view().len() == img_paths@.len(),
                index == strmap(self.index_view()),
                plans.deep_view().len() == i,
                forall|j: int|
                    0 <= j < i ==> plan_ok(
                        index,
                        output_dir@,
                        img_paths.deep_view()[j],
                        #[trigger] plans.deep_view()[j],
                    ),
            decreases img_paths@.len() - i,
        {
            proof {
                assert(img_paths.deep_view()[i as int] == img_paths@[i as int]@);
            }
            let path = &img_paths[i];
            let key = records::path_key(path.as_str());
            let (sub, matched): (String, bool) = match self.img_records.get(key.as_str()) {
                Some(s) => (s.clone(), true),
                None => ("unknown".to_owned(), false),
            };
            let name = paths::file_name_of(path.as_str());
            let taxon_dir = paths::join_path(output_dir, sub.as_str());
            let dest = paths::join_path(taxon_dir.as_str(), name.as_str());
            let plan = MovePlan { source: path.clone(), dest, matched };
            let ghost pre = plans.deep_view();
            plans.push(plan);
            proof {
                assert(plans.deep_view() =~= pre.push(plan@));
            }
            i += 1;
        }
        plans
    }

    /// One full planning run: load the CSV records, build the index (last
    /// write wins), collect the taxa, and plan a move for every discovered
    /// file.
    pub fn organize(&mut self, img_paths: &Vec<String>, csv_text: &str, output_dir: &str) -> (r:
        Result<OrganizePlan, LoadError>)
        ensures
            match r {
                Ok(plan) => {
                    let t = csv_table_of(csv_text@).unwrap();
                    &&& csv_table_of(csv_text@) is Some
                    &&& records::table_records_ok(t.0, t.1)
                    &&& final(self).records_view() == old(self).records_view()
                        + records::table_records(t.0, t.1)
                    &&& strmap(final(self).index_view()) == index_from(
                        strmap(old(self).index_view()),
                        final(self).records_view(),
                    )
                    &&& final(self).taxa_view() == old(self).taxa_view().union(
                        taxa_of(final(self).records_view()),
                    )
                    &&& plan.duplicate_keys.deep_view() == dups_from(
                        strmap(old(self).index_view()),
                        final(self).records_view(),
                    )
                    &&& plan.moves.deep_view().len() == img_paths.deep_view().len()
                    &&& forall|i: int|
                        0 <= i < plan.moves.deep_view().len() ==> plan_ok(
                            strmap(final(self).index_view()),
                            output_dir@,
                            img_paths.deep_view()[i],
                            #[trigger] plan.moves.deep_view()[i],
                        )
                },
                Err(e) => {
                    &&& final(self).records_view() == old(self).records_view()
                    &&& final(self).index_view() == old(self).index_view()
                    &&& final(self).taxa_view() == old(self).taxa_view()
                    &&& match (csv_table_of(csv_text@)) {
                        Some(t) => records::load_error_matches(t.0, t.1, e),
                        None => e is Csv,
                    }
                },
            },
    {
        match self.parse_config_csv(csv_text) {
            Ok(()) => (),
            Err(e) => {
                return Err(e);
            },
        }
        let duplicate_keys = self.parse_img_records();
        self.parse_taxa();
        let moves = self.plan_moves(img_paths, output_dir);
        Ok(OrganizePlan { moves, duplicate_keys })
    }
}

/// The counts one run reports: how many files were discovered, how many of
/// the attempted moves succeeded or failed, and how the discovered files
/// split into matched and unmatched.
pub struct OrganizeReport {
    pub discovered: usize,
    pub moved: usize,
    pub errored: usize,
    pub matched: usize,
    pub unmatched: usize,
}

/// How many entries of a sequence of move outcomes are successes.
pub open spec fn count_true(s: Seq<bool>) -> int
    decreases s.len(),
{
    if s.len() == 0 {
        0
    } else {
        count_true(s.drop_last()) + if s.last() {
            1int
        } else {
            0int
        }
    }
}

/// How many planned moves had a matching record.
pub open spec fn count_matched(s: Seq<PlanView>) -> int
    decreases s.len(),
{
    if s.len() == 0 {
        0
    } else {
        count_matched(s.drop_last()) + if s.last().matched {
            1int
        } else {
            0int
        }
    }
}

pub proof fn lemma_count_true_bound(s: Seq<bool>)
    ensures
        0 <= count_true(s) <= s.len(),
    decreases s.len(),
{
    if s.len() > 0 {
        lemma_count_true_bound(s.drop_last());
    }
}

pub proof fn lemma_count_matched_bound(s: Seq<PlanView>)
    ensures
        0 <= count_matched(s) <= s.len(),
    decreases s.len(),
{
    if s.len() > 0 {
        lemma_count_matched_bound(s.drop_last());
    }
}

/// Tallies the outcome of each planned move into the run's report:
/// `outcomes[i]` says whether the move of `plans[i]` succeeded.
pub fn tally_outcomes(plans: &Vec<MovePlan>, outcomes: &Vec<bool>) -> (r: OrganizeReport)
    requires
        plans@.len() == outcomes@.len(),
    ensures
        r.discovered == plans@.len(),
        r.moved == count_true(outcomes@),
        r.errored == plans@.len() - count_true(outcomes@),
        r.matched == count_matched(plans.deep_view()),
        r.unmatched == plans@.len() - count_matched(plans.deep_view()),
{
    let ghost pv = plans.deep_view();
    let n = plans.len();
    let mut moved: usize = 0;
    let mut matched: usize = 0;
    let mut i: usize = 0;
    proof {
        assert(outcomes@.take(0) =~= Seq::<bool>::empty());
        assert(pv.take(0) =~= Seq::<PlanView>::empty());
    }
    while i < n
        invariant
            i <= n,
            n == plans@.len() == outcomes@.len(),
            pv == plans.deep_view(),
            pv.len() == n,
            moved == count_true(outcomes@.take(i as int)),
            matched == count_matched(pv.take(i as int)),
            moved <= i,
            matched <= i,
        decreases n - i,
    {
        proof {
            assert(outcomes@.take(i as int + 1).drop_last() =~= outcomes@.take(i as int));
            assert(outcomes@.take(i as int + 1).last() == outcomes@[i as int]);
            assert(pv.take(i as int + 1).drop_last() =~= pv.take(i as int));
            assert(pv.take(i as int + 1).last() == pv[i as int]);
        }
        if outcomes[i] {
            moved += 1;
        }
        if plans[i].matched {
            matched += 1;
        }
        i += 1;
    }
    proof {
        assert(outcomes@.take(n as int) =~= outcomes@);
        assert(pv.take(n as int) =~= pv);
    }
    OrganizeReport {
        discovered: n,
        moved,
        errored: n - moved,
        matched,
        unmatched: n - matched,
    }
}

/// With no I/O errors every attempted move succeeds, so the tally of N
/// planned moves reports `moved == N` (and hence `errored == 0`); the
/// matched/unmatched split of the same report is exact by the contract of
/// `tally_outcomes`.
pub proof fn lemma_all_moves_counted(outcomes: Seq<bool>)
    requires
        forall|i: int| 0 <= i < outcomes.len() ==> outcomes[i],
    ensures
        count_true(outcomes) == outcomes.len(),
    decreases outcomes.len(),
{
    if outcomes.len() > 0 {
        assert(forall|i: int|
            0 <= i < outcomes.drop_last().len() ==> #[trigger] outcomes.drop_last()[i]
                == outcomes[i]);
        lemma_all_moves_counted(outcomes.drop_last());
    }
}

/// Last write wins: the index built from a record sequence maps each key to
/// the destination subpath of the last record bearing that key.
pub proof fn lemma_last_write_wins(
    base: Map<Seq<char>, Seq<char>>,
    recs: Seq<RecView>,
    i: int,
)
    requires
        0 <= i < recs.len(),
        forall|j: int|
            i < j < recs.len() ==> records::key_of(#[trigger] recs[j]) != records::key_of(recs[i]),
    ensures
        index_from(base, recs).contains_key(records::key_of(recs[i])),
        index_from(base, recs)[records::key_of(recs[i])] == records::subpath_of(recs[i]),
    decreases recs.len(),
{
    if i < recs.len() - 1 {
        assert(recs.drop_last()[i] == recs[i]);
        assert(forall|j: int|
            i < j < recs.drop_last().len() ==> records::key_of(#[trigger] recs.drop_last()[j])
                != records::key_of(recs[i]));
        lemma_last_write_wins(base, recs.drop_last(), i);
        assert(records::key_of(recs.last()) != records::key_of(recs[i]));
    }
}

/// The index holds exactly the base's keys and the records' keys.
pub proof fn lemma_index_keys(base: Map<Seq<char>, Seq<char>>, recs: Seq<RecView>, k: Seq<char>)
    ensures
        index_from(base, recs).contains_key(k) <==> (base.contains_key(k) || exists|i: int|
            0 <= i < recs.len() && records::key_of(#[trigger] recs[i]) == k),
    decreases recs.len(),
{
    if recs.len() > 0 {
        lemma_index_keys(base, recs.drop_last(), k);
        if records::key_of(recs.last()) == k {
            assert(records::key_of(recs[recs.len() - 1]) == k);
        } else {
            if exists|i: int| 0 <= i < recs.len() && records::key_of(#[trigger] recs[i]) == k {
                let w = choose|i: int|
                    0 <= i < recs.len() && records::key_of(#[trigger] recs[i]) == k;
                assert(w < recs.len() - 1);
                assert(records::key_of(recs.drop_last()[w]) == k);
            }
            if exists|i: int|
                0 <= i < recs.drop_last().len() && records::key_of(
                    #[trigger] recs.drop_last()[i],
                ) == k {
                let w = choose|i: int|
                    0 <= i < recs.drop_last().len() && records::key_of(
                        #[trigger] recs.drop_last()[i],
                    ) == k;
                assert(records::key_of(recs[w]) == k);
            }
        }
    }
}

/// A duplicate key is warned about: when an earlier record (or the base
/// index) already carried a later record's key, building the index emits
/// that key as a warning.
pub proof fn lemma_duplicate_warned(
    base: Map<Seq<char>, Seq<char>>,
    recs: Seq<RecView>,
    i: int,
    j: int,
)
    requires
        0 <= i < j < recs.len(),
        records::key_of(recs[i]) == records::key_of(recs[j]),
    ensures
        dups_from(base, recs).contains(records::key_of(recs[j])),
    decreases recs.len(),
{
    let k = records::key_of(recs[j]);
    if j == recs.len() - 1 {
        lemma_index_keys(base, recs.drop_last(), k);
        assert(records::key_of(recs.drop_last()[i]) == k);
        let d = dups_from(base, recs.drop_last());
        assert(dups_from(base, recs) == d + seq![k]);
        assert((d + seq![k])[d.len() as int] == k);
    } else {
        assert(recs.drop_last()[i] == recs[i]);
        assert(recs.drop_last()[j] == recs[j]);
        lemma_duplicate_warned(base, recs.drop_last(), i, j);
        let d = dups_from(base, recs.drop_last());
        let w = choose|w: int| 0 <= w < d.len() && d[w] == k;
        assert(dups_from(base, recs)[w] == k);
    }
}

} // verus!
