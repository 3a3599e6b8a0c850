//! Finder: decides which paths name camera-trap media. A file belongs to the
//! scan when its extension starts, case-insensitively, with one of the
//! supported media extensions — deliberately a prefix match, so an extension
//! such as `jpgx` is accepted too.

use vstd::prelude::*;
use vstd::string::StrSliceExecFns;
use crate::paths;
use crate::text;

verus! {

/// `p` is a case-insensitive prefix of `s`; `p` itself is given lower-case.
pub open spec fn is_prefix_ci(p: Seq<char>, s: Seq<char>) -> bool {
    p.len() <= s.len() && forall|i: int| 0 <= i < p.len() ==> text::to_lower(s[i]) == p[i]
}

/// The extension allow-list: the extension must start, case-insensitively,
/// with one of jpg, jpeg, avi, m4a, m4v, mp4.
pub open spec fn spec_match_extension(e: Seq<char>) -> bool {
    ||| is_prefix_ci("jpg"@, e)
    ||| is_prefix_ci("jpeg"@, e)
    ||| is_prefix_ci("avi"@, e)
    ||| is_prefix_ci("m4a"@, e)
    ||| is_prefix_ci("m4v"@, e)
    ||| is_prefix_ci("mp4"@, e)
}

/// A path names a media file when its file name has an extension that the
/// allow-list accepts.
pub open spec fn is_media_path(p: Seq<char>) -> bool {
    match paths::ext_of(paths::name_of(p)) {
        Some(e) => spec_match_extension(e),
        None => false,
    }
}

/// The subsequence of `ps` whose elements are media paths, in order.
pub open spec fn media_filter(ps: Seq<Seq<char>>) -> Seq<Seq<char>>
    decreases ps.len(),
{
    if ps.len() == 0 {
        Seq::empty()
    } else {
        media_filter(ps.drop_last()) + (if is_media_path(ps.last()) {
            seq![ps.last()]
        } else {
            Seq::<Seq<char>>::empty()
        })
    }
}

fn has_ci_prefix(s: &str, p: &str) -> (r: bool)
    ensures
        r == is_prefix_ci(p@, s@),
{
    let np = p.unicode_len();
    let ns = s.unicode_len();
    if np > ns {
        return false;
    }
    let mut i: usize = 0;
    while i < np
        invariant
            i <= np,
            np == p@.len() <= s@.len(),
            ns == s@.len(),
            forall|j: int| 0 <= j < i ==> text::to_lower(s@[j]) == p@[j],
        decreases np - i,
    {
        if text::lower_char(s.get_char(i)) != p.get_char(i) {
            return false;
        }
        i += 1;
    }
    true
}

/// Tests an extension against the allow-list.
pub fn match_extension(text: &str) -> (r: bool)
    ensures
        r == spec_match_extension(text@),
{
    has_ci_prefix(text, "jpg") || has_ci_prefix(text, "jpeg") || has_ci_prefix(text, "avi")
        || has_ci_prefix(text, "m4a") || has_ci_prefix(text, "m4v") || has_ci_prefix(text, "mp4")
}

/// Tests whether a path names a media file.
pub fn media_path(p: &str) -> (r: bool)
    ensures
        r == is_media_path(p@),
{
    match paths::extension_of(p) {
        Some(e) => match_extension(e.as_str()),
        None => false,
    }
}

/// The extension allow-list does not look at case: a path matches exactly
/// when its lower-cased form does.
pub proof fn lemma_match_extension_case_insensitive(e: Seq<char>)
    ensures
        spec_match_extension(text::lower_seq(e)) == spec_match_extension(e),
        spec_match_extension(text::upper_seq(e)) == spec_match_extension(e),
{
    assert forall|c: char| text::to_lower(text::to_lower(c)) == text::to_lower(c) by {}
    assert forall|c: char| text::to_lower(text::to_upper(c)) == text::to_lower(c) by {}
    assert(text::lower_seq(e).len() == e.len());
    assert(text::upper_seq(e).len() == e.len());
    assert forall|p: Seq<char>|
        is_prefix_ci(p, text::lower_seq(e)) == is_prefix_ci(p, e) && is_prefix_ci(
            p,
            text::upper_seq(e),
        ) == is_prefix_ci(p, e) by {
        assert(forall|i: int|
            0 <= i < e.len() ==> text::to_lower(#[trigger] text::lower_seq(e)[i])
                == text::to_lower(e[i]) && text::to_lower(text::upper_seq(e)[i]) == text::to_lower(
                e[i],
            ));
    }
}

/// Finder walks a directory for media files; the walk itself is the
/// caller's, this type holds the root and the decision which paths count.
pub struct Finder {
    input: String,
}

impl Finder {
    /// The directory root the finder was made for.
    pub closed spec fn input_view(&self) -> Seq<char> {
        self.input@
    }

    pub fn new(input: String) -> (r: Finder)
        ensures
            r.input_view() == input@,
    {
        Finder { input }
    }

    /// The root handed to `new`.
    pub fn input(&self) -> (r: &String)
        ensures
            r@ == self.input_view(),
    {
        &self.input
    }

    /// Keeps exactly the paths that name media files, in their given order.
    pub fn filter_media(&self, paths: &Vec<String>) -> (r: Vec<String>)
        ensures
            r.deep_view() == media_filter(paths.deep_view()),
    {
        let mut r: Vec<String> = Vec::new();
        let mut i: usize = 0;
        proof {
            assert(paths.deep_view().take(0) =~= Seq::<Seq<char>>::empty());
            assert(r.deep_view() =~= media_filter(paths.deep_view().take(0)));
        }
        while i < paths.len()
            invariant
                i <= paths@.len(),
                paths.deep_view().len() == paths@.len(),
                r.deep_view() == media_filter(paths.deep_view().take(i as int)),
            decreases paths@.len() - i,
        {
            let ghost pre = r.deep_view();
            if media_path(paths[i].as_str()) {
                r.push(paths[i].clone());
                proof {
                    assert(r.deep_view() =~= pre.push(paths.deep_view()[i as int]));
                }
            }
            proof {
                assert(paths.deep_view().take(i as int + 1).drop_last() =~= paths.deep_view().take(
                    i as int,
                ));
                assert(paths.deep_view().take(i as int + 1).last() == paths.deep_view()[i as int]);
                assert(r.deep_view() =~= media_filter(paths.deep_view().take(i as int + 1)));
            }
            i += 1;
        }
        proof {
            assert(paths.deep_view().take(paths@.len() as int) =~= paths.deep_view());
        }
        r
    }
}

} // verus!
