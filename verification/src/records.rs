//! Taxonomic records: one CSV row names an image, a taxon, a locality and a
//! station. The canonical header names the columns `image_id`,
//! `scientific_id`, `locality_id` and `station`, in any order. A record's
//! normalized key (the upper-cased stem of its image id) joins it against
//! discovered files, and its destination subpath is
//! `sanitized taxon / locality / station`.

use vstd::prelude::*;
use crate::paths;
use crate::text;

verus! {

/// One step of taxon-name scrubbing, walking the characters from the left:
/// a run of whitespace becomes a single underscore (`prev_space` says whether
/// the run has already produced one), periods are dropped, and every other
/// character is kept.
pub open spec fn scrub(s: Seq<char>, prev_space: bool) -> Seq<char>
    decreases s.len(),
{
    if s.len() == 0 {
        Seq::empty()
    } else if text::is_space(s[0]) {
        (if prev_space {
            Seq::<char>::empty()
        } else {
            seq!['_']
        }) + scrub(s.skip(1), true)
    } else if s[0] == '.' {
        scrub(s.skip(1), false)
    } else {
        seq![s[0]] + scrub(s.skip(1), false)
    }
}

/// A sanitized taxon name: surrounding whitespace trimmed, every inner run
/// of whitespace replaced by one underscore, and all periods removed.
pub open spec fn sanitized(s: Seq<char>) -> Seq<char> {
    scrub(text::trim_spec(s), false)
}

fn scrub_into(v: &Vec<char>, i: usize, prev_space: bool, out: &mut String)
    requires
        i <= v@.len(),
    ensures
        final(out)@ == old(out)@ + scrub(v@.skip(i as int), prev_space),
    decreases v@.len() - i,
{
    if i == v.len() {
        proof {
            assert(v@.skip(i as int) =~= Seq::<char>::empty());
            assert(out@ + scrub(v@.skip(i as int), prev_space) =~= out@);
        }
        return ;
    }
    proof {
        assert(v@.skip(i as int).skip(1) =~= v@.skip(i as int + 1));
        assert(v@.skip(i as int)[0] == v@[i as int]);
    }
    let ghost pre = out@;
    let c = v[i];
    if text::space_char(c) {
        if !prev_space {
            text::push_char(out, '_');
        }
        scrub_into(v, i + 1, true, out);
        proof {
            assert(out@ =~= pre + scrub(v@.skip(i as int), prev_space));
        }
    } else if c == '.' {
        scrub_into(v, i + 1, false, out);
        proof {
            assert(out@ =~= pre + scrub(v@.skip(i as int), prev_space));
        }
    } else {
        text::push_char(out, c);
        scrub_into(v, i + 1, false, out);
        proof {
            assert(out@ =~= pre + scrub(v@.skip(i as int), prev_space));
        }
    }
}

/// Sanitizes a taxon name for use as a directory component: trims
/// surrounding whitespace, collapses each inner whitespace run to a single
/// underscore, and strips periods.
pub fn sanitize(s: &str) -> (r: String)
    ensures
        r@ == sanitized(s@),
{
    let chars = text::str_to_chars(s);
    let trimmed = text::trim_chars(&chars);
    let mut out = String::new();
    scrub_into(&trimmed, 0, false, &mut out);
    proof {
        assert(trimmed@.skip(0) =~= trimmed@);
        assert(Seq::<char>::empty() + scrub(trimmed@, false) =~= scrub(trimmed@, false));
    }
    out
}

/// One taxonomic record, as one CSV data row gives it.
pub struct ImgRecord {
    pub locality_id: String,
    pub station: String,
    pub image_id: String,
    pub scientific_id: String,
}

/// The mathematical shadow of a record: its four fields as character
/// sequences.
pub struct RecView {
    pub locality_id: Seq<char>,
    pub station: Seq<char>,
    pub image_id: Seq<char>,
    pub scientific_id: Seq<char>,
}

impl View for ImgRecord {
    type V = RecView;

    open spec fn view(&self) -> RecView {
        RecView {
            locality_id: self.locality_id@,
            station: self.station@,
            image_id: self.image_id@,
            scientific_id: self.scientific_id@,
        }
    }
}

impl DeepView for ImgRecord {
    type V = RecView;

    open spec fn deep_view(&self) -> RecView {
        self@
    }
}

/// The normalized key of an image id: the id is trimmed, read as a path,
/// and the upper-cased stem of its file name joins it against discovered
/// files.
pub open spec fn key_of_id(image_id: Seq<char>) -> Seq<char> {
    text::upper_seq(paths::stem_of(paths::name_of(text::trim_spec(image_id))))
}

/// A record's join key.
pub open spec fn key_of(r: RecView) -> Seq<char> {
    key_of_id(r.image_id)
}

/// A record's destination subpath: `sanitized taxon / locality / station`.
pub open spec fn subpath_of(r: RecView) -> Seq<char> {
    sanitized(r.scientific_id) + seq!['/'] + r.locality_id + seq!['/'] + r.station
}

/// A usable directory component: nonempty, without separators, and not a
/// parent-directory reference, so no record can steer a file outside the
/// output directory.
pub open spec fn safe_component(s: Seq<char>) -> bool {
    s.len() > 0 && !s.contains('/') && s != ".."@
}

/// A record whose destination subpath stays a relative path of exactly
/// three components.
pub open spec fn safe_record(r: RecView) -> bool {
    &&& safe_component(sanitized(r.scientific_id))
    &&& safe_component(r.locality_id)
    &&& safe_component(r.station)
}

/// The normalized key of an image id, as `key_of_id` gives it.
pub fn record_key(image_id: &str) -> (r: String)
    ensures
        r@ == key_of_id(image_id@),
{
    let chars = text::str_to_chars(image_id);
    let trimmed = text::trim_chars(&chars);
    let trimmed_str = text::chars_to_string(&trimmed);
    let stem = paths::file_stem_of(trimmed_str.as_str());
    text::upper_string(stem.as_str())
}

/// A record's destination subpath, as `subpath_of` gives it.
pub fn record_subpath(r: &ImgRecord) -> (s: String)
    ensures
        s@ == subpath_of(r@),
{
    let taxon = sanitize(r.scientific_id.as_str());
    let mut s = taxon;
    text::push_char(&mut s, '/');
    let s = s.concat(r.locality_id.as_str());
    let mut s = s;
    text::push_char(&mut s, '/');
    let s = s.concat(r.station.as_str());
    proof {
        assert(s@ =~= subpath_of(r@));
    }
    s
}

/// Whether a string can stand as one destination directory component.
pub fn component_ok(s: &str) -> (r: bool)
    ensures
        r == safe_component(s@),
{
    let v = text::str_to_chars(s);
    let n = v.len();
    if n == 0 {
        return false;
    }
    let mut i: usize = 0;
    while i < n
        invariant
            i <= n,
            n == s@.len(),
            v@ == s@,
            forall|j: int| 0 <= j < i ==> s@[j] != '/',
        decreases n - i,
    {
        if v[i] == '/' {
            proof {
                assert(s@.contains('/')) by {
                    assert(s@[i as int] == '/');
                }
            }
            return false;
        }
        i += 1;
    }
    let is_dotdot = n == 2 && v[0] == '.' && v[1] == '.';
    proof {
        assert(!s@.contains('/'));
        reveal_strlit("..");
        if is_dotdot {
            assert(s@ =~= ".."@);
        } else {
            assert(s@ != ".."@) by {
                if s@ == ".."@ {
                    assert(s@.len() == 2);
                    assert(s@[0] == '.');
                    assert(s@[1] == '.');
                }
            }
        }
    }
    !is_dotdot
}

/// The join key of a discovered file: the upper-cased stem of its file
/// name. Unlike a record's image id, a discovered path is not trimmed.
pub open spec fn key_of_path(p: Seq<char>) -> Seq<char> {
    text::upper_seq(paths::stem_of(paths::name_of(p)))
}

/// The join key of a discovered file, as `key_of_path` gives it.
pub fn path_key(p: &str) -> (r: String)
    ensures
        r@ == key_of_path(p@),
{
    let stem = paths::file_stem_of(p);
    text::upper_string(stem.as_str())
}

/// The position of the first header cell equal to `name`.
pub open spec fn find_col(h: Seq<Seq<char>>, name: Seq<char>) -> Option<int>
    decreases h.len(),
{
    if h.len() == 0 {
        None
    } else if h[0] == name {
        Some(0int)
    } else {
        match find_col(h.skip(1), name) {
            Some(i) => Some(i + 1),
            None => None,
        }
    }
}

pub proof fn lemma_find_col_found(h: Seq<Seq<char>>, name: Seq<char>, i: int)
    requires
        0 <= i < h.len(),
        forall|j: int| 0 <= j < i ==> h[j] != name,
        h[i] == name,
    ensures
        find_col(h, name) == Some(i),
    decreases i,
{
    if i == 0 {
    } else {
        assert(h[0] != name);
        assert(forall|j: int| 0 <= j < i - 1 ==> h.skip(1)[j] == h[j + 1]);
        lemma_find_col_found(h.skip(1), name, i - 1);
    }
}

pub proof fn lemma_find_col_none(h: Seq<Seq<char>>, name: Seq<char>)
    requires
        forall|j: int| 0 <= j < h.len() ==> h[j] != name,
    ensures
        find_col(h, name) is None,
    decreases h.len(),
{
    if h.len() > 0 {
        assert(forall|j: int| 0 <= j < h.len() - 1 ==> h.skip(1)[j] == h[j + 1]);
        lemma_find_col_none(h.skip(1), name);
    }
}

/// The position of the first header cell equal to `name`, if any.
pub fn find_col_in(header: &Vec<String>, name: &str) -> (r: Option<usize>)
    ensures
        match r {
            Some(i) => find_col(header.deep_view(), name@) == Some(i as int) && i
                < header@.len(),
            None => find_col(header.deep_view(), name@) is None,
        },
{
    let ghost h = header.deep_view();
    let mut i: usize = 0;
    while i < header.len()
        invariant
            i <= header@.len(),
            h == header.deep_view(),
            h.len() == header@.len(),
            forall|j: int| 0 <= j < i ==> h[j] != name@,
        decreases header@.len() - i,
    {
        if text::str_eq(header[i].as_str(), name) {
            proof {
                lemma_find_col_found(h, name@, i as int);
            }
            return Some(i);
        }
        i += 1;
    }
    proof {
        lemma_find_col_none(h, name@);
    }
    None
}

/// Why a CSV configuration could not be loaded.
#[derive(Debug)]
pub enum LoadError {
    /// The CSV text itself could not be read (bad quoting, bad encoding, or
    /// a row whose field count differs from the header's).
    Csv(String),
    /// The header lacks the named required column.
    MissingColumn(String),
    /// The data row at this position is wider or narrower than the header.
    RowWidth(usize),
    /// The record at this position would produce an unusable destination
    /// (an empty, separator-carrying, or parent-directory component).
    UnsafeRecord(usize),
}

/// The header carries all four required columns.
pub open spec fn header_ok(h: Seq<Seq<char>>) -> bool {
    &&& find_col(h, "image_id"@) is Some
    &&& find_col(h, "scientific_id"@) is Some
    &&& find_col(h, "locality_id"@) is Some
    &&& find_col(h, "station"@) is Some
}

/// The first required column missing from the header.
pub open spec fn first_missing(h: Seq<Seq<char>>) -> Seq<char> {
    if find_col(h, "image_id"@) is None {
        "image_id"@
    } else if find_col(h, "scientific_id"@) is None {
        "scientific_id"@
    } else if find_col(h, "locality_id"@) is None {
        "locality_id"@
    } else {
        "station"@
    }
}

/// The record that a data row holds, read through the header's column
/// positions.
pub open spec fn row_rec(h: Seq<Seq<char>>, row: Seq<Seq<char>>) -> RecView {
    RecView {
        locality_id: row[find_col(h, "locality_id"@).unwrap()],
        station: row[find_col(h, "station"@).unwrap()],
        image_id: row[find_col(h, "image_id"@).unwrap()],
        scientific_id: row[find_col(h, "scientific_id"@).unwrap()],
    }
}

/// A data row that loads: as wide as the header, and its record safe.
pub open spec fn row_pass(h: Seq<Seq<char>>, row: Seq<Seq<char>>) -> bool {
    row.len() == h.len() && safe_record(row_rec(h, row))
}

/// The whole table loads.
pub open spec fn table_records_ok(h: Seq<Seq<char>>, rs: Seq<Seq<Seq<char>>>) -> bool {
    header_ok(h) && (forall|i: int| 0 <= i < rs.len() ==> row_pass(h, #[trigger] rs[i]))
}

/// The records of a loadable table, row by row.
pub open spec fn table_records(h: Seq<Seq<char>>, rs: Seq<Seq<Seq<char>>>) -> Seq<RecView> {
    rs.map_values(|row: Seq<Seq<char>>| row_rec(h, row))
}

/// Exactly when `records_from_table` returns this error on this table.
pub open spec fn load_error_matches(
    h: Seq<Seq<char>>,
    rs: Seq<Seq<Seq<char>>>,
    e: LoadError,
) -> bool {
    match e {
        LoadError::Csv(_) => false,
        LoadError::MissingColumn(c) => !header_ok(h) && c@ == first_missing(h),
        LoadError::RowWidth(i) => header_ok(h) && i < rs.len() && rs[i as int].len() != h.len()
            && (forall|j: int| 0 <= j < i ==> row_pass(h, #[trigger] rs[j])),
        LoadError::UnsafeRecord(i) => header_ok(h) && i < rs.len() && rs[i as int].len() == h.len()
            && !safe_record(row_rec(h, rs[i as int])) && (forall|j: int|
            0 <= j < i ==> row_pass(h, #[trigger] rs[j])),
    }
}

/// Reads the records out of a parsed CSV table. The header must name the
/// four required columns; every data row must be as wide as the header and
/// must yield a record whose destination components are safe. The first
/// offending row (in table order) decides the error.
pub fn records_from_table(header: &Vec<String>, rows: &Vec<Vec<String>>) -> (r: Result<
    Vec<ImgRecord>,
    LoadError,
>)
    ensures
        ({
            let h = header.deep_view();
            let rs = rows.deep_view();
            match r {
                Ok(recs) => table_records_ok(h, rs) && recs.deep_view() == table_records(h, rs),
                Err(e) => load_error_matches(h, rs, e),
            }
        }),
{
    let ghost h = header.deep_view();
    let ghost rs = rows.deep_view();
    let c_img = match find_col_in(header, "image_id") {
        Some(c) => c,
        None => {
            return Err(LoadError::MissingColumn("image_id".to_owned()));
        },
    };
    let c_sci = match find_col_in(header, "scientific_id") {
        Some(c) => c,
        None => {
            return Err(LoadError::MissingColumn("scientific_id".to_owned()));
        },
    };
    let c_loc = match find_col_in(header, "locality_id") {
        Some(c) => c,
        None => {
            return Err(LoadError::MissingColumn("locality_id".to_owned()));
        },
    };
    let c_sta = match find_col_in(header, "station") {
        Some(c) => c,
        None => {
            return Err(LoadError::MissingColumn("station".to_owned()));
        },
    };
    let mut recs: Vec<ImgRecord> = Vec::new();
    let mut i: usize = 0;
    while i < rows.len()
        invariant
            i <= rows@.len(),
            h == header.deep_view(),
            rs == rows.deep_view(),
            rs.len() == rows@.len(),
            find_col(h, "image_id"@) == Some(c_img as int),
            find_col(h, "scientific_id"@) == Some(c_sci as int),
            find_col(h, "locality_id"@) == Some(c_loc as int),
            find_col(h, "station"@) == Some(c_sta as int),
            c_img < header@.len() && c_sci < header@.len() && c_loc < header@.len() && c_sta
                < header@.len(),
            recs.deep_view().len() == i,
            forall|j: int| 0 <= j < i ==> row_pass(h, #[trigger] rs[j]),
            forall|j: int| 0 <= j < i ==> #[trigger] recs.deep_view()[j] == row_rec(h, rs[j]),
        decreases rows@.len() - i,
    {
        let row = &rows[i];
        proof {
            assert(rs[i as int] == rows@[i as int].deep_view());
        }
        if row.len() != header.len() {
            return Err(LoadError::RowWidth(i));
        }
        let rec = ImgRecord {
            locality_id: row[c_loc].clone(),
            station: row[c_sta].clone(),
            image_id: row[c_img].clone(),
            scientific_id: row[c_sci].clone(),
        };
        proof {
            assert(rec@ == row_rec(h, rs[i as int]));
        }
        let taxon = sanitize(rec.scientific_id.as_str());
        let safe = component_ok(taxon.as_str()) && component_ok(rec.locality_id.as_str())
            && component_ok(rec.station.as_str());
        if !safe {
            return Err(LoadError::UnsafeRecord(i));
        }
        let ghost pre = recs.deep_view();
        recs.push(rec);
        proof {
            assert(recs.deep_view() =~= pre.push(row_rec(h, rs[i as int])));
        }
        i += 1;
    }
    proof {
        assert(recs.deep_view() =~= table_records(h, rs));
    }
    Ok(recs)
}

} // verus!
