//! Summary: groups discovered paths by lower-cased extension and reports
//! each distinct extension with its number of occurrences, in lexicographic
//! order. A path without an extension is left out of the grouping rather
//! than failing the summary.

use vstd::prelude::*;
use vstd::pervasive::VecAdditionalExecFns;
use crate::paths;
use crate::text;

verus! {

/// The lower-cased extensions of the paths that have one, in path order.
pub open spec fn exts_of(ps: Seq<Seq<char>>) -> Seq<Seq<char>>
    decreases ps.len(),
{
    if ps.len() == 0 {
        Seq::empty()
    } else {
        exts_of(ps.drop_last()) + (match paths::ext_of(paths::name_of(ps.last())) {
            Some(e) => seq![text::lower_seq(e)],
            None => Seq::<Seq<char>>::empty(),
        })
    }
}

/// How often `x` occurs in `s`.
pub open spec fn count_eq(s: Seq<Seq<char>>, x: Seq<char>) -> int
    decreases s.len(),
{
    if s.len() == 0 {
        0
    } else {
        count_eq(s.drop_last(), x) + if s.last() == x {
            1int
        } else {
            0int
        }
    }
}

/// Strictly ascending, hence duplicate-free, in lexicographic order.
pub open spec fn sorted_distinct(keys: Seq<Seq<char>>) -> bool {
    forall|i: int, j: int| 0 <= i < j < keys.len() ==> text::lex_lt(keys[i], keys[j])
}

pub proof fn lemma_count_eq_bound(s: Seq<Seq<char>>, x: Seq<char>)
    ensures
        0 <= count_eq(s, x) <= s.len(),
    decreases s.len(),
{
    if s.len() > 0 {
        lemma_count_eq_bound(s.drop_last(), x);
    }
}

pub proof fn lemma_count_eq_contains(s: Seq<Seq<char>>, x: Seq<char>)
    ensures
        s.contains(x) <==> count_eq(s, x) > 0,
    decreases s.len(),
{
    if s.len() > 0 {
        lemma_count_eq_contains(s.drop_last(), x);
        lemma_count_eq_bound(s.drop_last(), x);
        if s.last() == x {
            assert(s[s.len() - 1] == x);
        } else {
            if s.contains(x) {
                let w = choose|w: int| 0 <= w < s.len() && s[w] == x;
                assert(s.drop_last()[w] == x);
            }
            if s.drop_last().contains(x) {
                let w = choose|w: int| 0 <= w < s.drop_last().len() && s.drop_last()[w] == x;
                assert(s[w] == x);
            }
        }
    }
}

/// What one summary run reports: each distinct extension beside how many
/// discovered files bear it, and the total number of discovered files.
pub struct SummaryReport {
    pub extensions: Vec<String>,
    pub counts: Vec<usize>,
    pub total: usize,
}

/// Summary aggregates a finished scan's paths.
pub struct Summary {
    pub img_paths: Vec<String>,
}

impl Summary {
    pub fn new(img_paths: Vec<String>) -> (r: Summary)
        ensures
            r.img_paths == img_paths,
    {
        Summary { img_paths }
    }

    /// The lower-cased extension of every path that has one, in order.
    pub fn parse_extension(&self, image_paths: &Vec<String>) -> (r: Vec<String>)
        ensures
            r.deep_view() == exts_of(image_paths.deep_view()),
    {
        let ghost ps = image_paths.deep_view();
        let mut r: Vec<String> = Vec::new();
        let mut i: usize = 0;
        proof {
            assert(ps.take(0) =~= Seq::<Seq<char>>::empty());
            assert(r.deep_view() =~= exts_of(ps.take(0)));
        }
        while i < image_paths.len()
            invariant
                i <= image_paths@.len(),
                ps == image_paths.deep_view(),
                ps.len() == image_paths@.len(),
                r.deep_view() == exts_of(ps.take(i as int)),
            decreases image_paths@.len() - i,
        {
            proof {
                assert(ps[i as int] == image_paths@[i as int]@);
                assert(ps.take(i as int + 1).drop_last() =~= ps.take(i as int));
                assert(ps.take(i as int + 1).last() == ps[i as int]);
            }
            let ghost pre = r.deep_view();
            match paths::extension_of(image_paths[i].as_str()) {
                Some(e) => {
                    let low = text::lower_string(e.as_str());
                    r.push(low);
                    proof {
                        assert(r.deep_view() =~= pre + seq![
                            text::lower_seq(paths::ext_of(paths::name_of(ps[i as int])).unwrap()),
                        ]);
                    }
                },
                None => {
                    proof {
                        assert(r.deep_view() =~= exts_of(ps.take(i as int + 1)));
                    }
                },
            }
            i += 1;
        }
        proof {
            assert(ps.take(ps.len() as int) =~= ps);
        }
        r
    }

    /// Groups the scan's paths by lower-cased extension: the report lists
    /// each distinct extension once, in ascending lexicographic order, with
    /// the number of files bearing it, and the total number of paths.
    pub fn summarize(&self) -> (r: SummaryReport)
        ensures
            r.total == self.img_paths@.len(),
            r.counts@.len() == r.extensions.deep_view().len(),
            sorted_distinct(r.extensions.deep_view()),
            forall|i: int|
                0 <= i < r.counts@.len() ==> r.counts@[i] == count_eq(
                    exts_of(self.img_paths.deep_view()),
                    #[trigger] r.extensions.deep_view()[i],
                ) && r.counts@[i] >= 1,
            forall|x: Seq<char>|
                #[trigger] exts_of(self.img_paths.deep_view()).contains(x)
                    ==> r.extensions.deep_view().contains(x),
    {
        let exts = self.parse_extension(&self.img_paths);
        let ghost es = exts.deep_view();
        let n = exts.len();
        let mut keys: Vec<String> = Vec::new();
        let mut counts: Vec<usize> = Vec::new();
        let mut t: usize = 0;
        proof {
            assert(es.take(0) =~= Seq::<Seq<char>>::empty());
        }
        while t < n
            invariant
                t <= n,
                es == exts.deep_view(),
                n == es.len() == exts@.len(),
                counts@.len() == keys.deep_view().len(),
                sorted_distinct(keys.deep_view()),
                forall|i: int|
                    0 <= i < counts@.len() ==> #[trigger] counts@[i] == count_eq(
                        es.take(t as int),
                        keys.deep_view()[i],
                    ) && 1 <= counts@[i] <= t,
                forall|x: Seq<char>|
                    #[trigger] es.take(t as int).contains(x) ==> keys.deep_view().contains(x),
            decreases n - t,
        {
            let ghost kd = keys.deep_view();
            proof {
                assert(es[t as int] == exts@[t as int]@);
                assert(es.take(t as int + 1).drop_last() =~= es.take(t as int));
                assert(es.take(t as int + 1).last() == es[t as int]);
            }
            let e = &exts[t];
            let mut pos: usize = 0;
            while pos < keys.len() && text::str_lt(keys[pos].as_str(), e.as_str())
                invariant
                    pos <= keys@.len(),
                    kd == keys.deep_view(),
                    kd.len() == keys@.len(),
                    e@ == es[t as int],
                    forall|i: int| 0 <= i < pos ==> text::lex_lt(#[trigger] kd[i], e@),
                decreases keys@.len() - pos,
            {
                pos += 1;
            }
            let found = pos < keys.len() && text::str_eq(keys[pos].as_str(), e.as_str());
            if found {
                proof {
                    assert(kd[pos as int] == keys@[pos as int]@);
                    assert(counts@[pos as int] == count_eq(es.take(t as int), kd[pos as int]));
                    assert(counts@[pos as int] <= t);
                }
                let c = counts[pos];
                counts.set(pos, c + 1);
                proof {
                    assert(kd[pos as int] == es[t as int]);
                    assert forall|i: int|
                        0 <= i < counts@.len() implies #[trigger] counts@[i] == count_eq(
                        es.take(t as int + 1),
                        keys.deep_view()[i],
                    ) && 1 <= counts@[i] <= t + 1 by {
                        assert(keys.deep_view()[i] == kd[i]);
                        if i != pos {
                            assert(kd[i] != kd[pos as int]) by {
                                if i < pos {
                                    assert(text::lex_lt(kd[i], kd[pos as int]));
                                } else {
                                    assert(text::lex_lt(kd[pos as int], kd[i]));
                                }
                                text::lemma_lex_irrefl(kd[i]);
                            }
                        }
                    }
                    assert forall|x: Seq<char>|
                        #[trigger] es.take(t as int + 1).contains(x) implies kd.contains(x) by {
                        let w = choose|w: int|
                            0 <= w < es.take(t as int + 1).len() && #[trigger] es.take(
                                t as int + 1,
                            )[w] == x;
                        if w < t {
                            assert(es.take(t as int)[w] == x);
                            assert(es.take(t as int).contains(x));
                        } else {
                            assert(x == es[t as int]);
                            assert(kd[pos as int] == x);
                        }
                    }
                }
            } else {
                proof {
                    if pos < kd.len() {
                        text::lemma_lex_connected(kd[pos as int], e@);
                        assert(text::lex_lt(e@, kd[pos as int]));
                    }
                    assert forall|i: int| pos <= i < kd.len() implies text::lex_lt(
                        e@,
                        #[trigger] kd[i],
                    ) by {
                        if i > pos {
                            text::lemma_lex_trans(e@, kd[pos as int], kd[i]);
                        }
                    }
                    assert(count_eq(es.take(t as int), e@) == 0) by {
                        lemma_count_eq_contains(es.take(t as int), e@);
                        lemma_count_eq_bound(es.take(t as int), e@);
                        if es.take(t as int).contains(e@) {
                            assert(kd.contains(e@));
                            let w = choose|w: int| 0 <= w < kd.len() && kd[w] == e@;
                            if w < pos {
                                assert(text::lex_lt(kd[w], e@));
                            } else {
                                assert(text::lex_lt(e@, kd[w]));
                            }
                            text::lemma_lex_irrefl(e@);
                        }
                    }
                }
                keys.insert(pos, e.clone());
                counts.insert(pos, 1);
                proof {
                    let kd2 = keys.deep_view();
                    assert(kd2 =~= kd.insert(pos as int, e@));
                    assert(kd2.len() == kd.len() + 1);
                    assert(forall|i: int| 0 <= i < pos ==> #[trigger] kd2[i] == kd[i]);
                    assert(kd2[pos as int] == e@);
                    assert(forall|i: int| pos < i < kd2.len() ==> #[trigger] kd2[i] == kd[i - 1]);
                    assert forall|i: int, j: int|
                        0 <= i < j < kd2.len() implies text::lex_lt(kd2[i], kd2[j]) by {
                        if j < pos {
                        } else if i < pos && j == pos {
                            assert(text::lex_lt(kd[i], e@));
                        } else if i < pos && j > pos {
                            assert(text::lex_lt(kd[i], kd[j - 1]));
                        } else if i == pos {
                            assert(text::lex_lt(e@, kd[j - 1]));
                        } else {
                            assert(text::lex_lt(kd[i - 1], kd[j - 1]));
                        }
                    }
                    assert(sorted_distinct(kd2));
                    assert forall|i: int|
                        0 <= i < counts@.len() implies #[trigger] counts@[i] == count_eq(
                        es.take(t as int + 1),
                        kd2[i],
                    ) && 1 <= counts@[i] <= t + 1 by {
                        if i < pos {
                            assert(counts@[i] == count_eq(es.take(t as int), kd[i]));
                            assert(kd2[i] != es[t as int]) by {
                                assert(text::lex_lt(kd[i], e@));
                                text::lemma_lex_irrefl(kd[i]);
                            }
                        } else if i == pos {
                            assert(counts@[i] == 1);
                        } else {
                            assert(counts@[i] == count_eq(es.take(t as int), kd[i - 1]));
                            assert(kd2[i] != es[t as int]) by {
                                assert(text::lex_lt(e@, kd[i - 1]));
                                text::lemma_lex_irrefl(kd[i - 1]);
                            }
                        }
                    }
                    assert forall|x: Seq<char>|
                        #[trigger] es.take(t as int + 1).contains(x) implies kd2.contains(x) by {
                        let w = choose|w: int|
                            0 <= w < es.take(t as int + 1).len() && #[trigger] es.take(
                                t as int + 1,
                            )[w] == x;
                        if w < t {
                            assert(es.take(t as int)[w] == x);
                            assert(es.take(t as int).contains(x));
                            let v = choose|v: int| 0 <= v < kd.len() && kd[v] == x;
                            if v < pos {
                                assert(kd2[v] == x);
                            } else {
                                assert(kd2[v + 1] == x);
                            }
                        } else {
                            assert(kd2[pos as int] == x);
                        }
                    }
                }
            }
            t += 1;
        }
        proof {
            assert(es.take(n as int) =~= es);
        }
        let total = self.img_paths.len();
        SummaryReport { extensions: keys, counts, total }
    }
}

} // verus!
