//! A string model of file paths. The library treats a path as a sequence of
//! characters whose components are separated by `/`; the file name is what
//! follows the last separator, the extension what follows the last period of
//! the file name, and the stem what precedes it.

use vstd::prelude::*;
use vstd::string::StrSliceExecFns;
use vstd::string::StringExecFns;
use crate::text;

verus! {

/// The index of the last occurrence of `c` in `s`, or `-1` when `s` does not
/// contain `c`.
pub open spec fn last_index(s: Seq<char>, c: char) -> int
    decreases s.len(),
{
    if s.len() == 0 {
        -1
    } else if s.last() == c {
        s.len() - 1
    } else {
        last_index(s.drop_last(), c)
    }
}

/// The file name of a path: everything after the last `/`, or the whole path
/// when it has no separator.
pub open spec fn name_of(p: Seq<char>) -> Seq<char> {
    p.skip(last_index(p, '/') + 1)
}

/// The stem of a file name: everything before its last period, except that a
/// name whose only period leads it (or that has none) is its own stem.
pub open spec fn stem_of(name: Seq<char>) -> Seq<char> {
    let d = last_index(name, '.');
    if d <= 0 {
        name
    } else {
        name.take(d)
    }
}

/// The extension of a file name: everything after its last period, or none
/// when the name has no period other than a leading one.
pub open spec fn ext_of(name: Seq<char>) -> Option<Seq<char>> {
    let d = last_index(name, '.');
    if d <= 0 {
        None
    } else {
        Some(name.skip(d + 1))
    }
}

/// Joining two paths: a `/` is put between them unless the left side is
/// empty or already ends with one.
pub open spec fn join_spec(a: Seq<char>, b: Seq<char>) -> Seq<char> {
    if a.len() == 0 {
        b
    } else if a.last() == '/' {
        a + b
    } else {
        a + seq!['/'] + b
    }
}

/// Where the last occurrence of `c` stands in `v`, if anywhere.
pub fn last_index_of(v: &Vec<char>, c: char) -> (r: Option<usize>)
    ensures
        match r {
            Some(i) => i == last_index(v@, c) && i < v@.len(),
            None => last_index(v@, c) == -1,
        },
{
    let mut i: usize = v.len();
    proof {
        assert(v@.take(v@.len() as int) =~= v@);
    }
    while i > 0
        invariant
            i <= v@.len(),
            last_index(v@, c) == last_index(v@.take(i as int), c),
        decreases i,
    {
        proof {
            assert(v@.take(i as int).last() == v@[i - 1]);
            assert(v@.take(i as int).drop_last() =~= v@.take(i - 1));
        }
        if v[i - 1] == c {
            return Some(i - 1);
        }
        i -= 1;
    }
    None
}

/// The file name of a path string.
pub fn file_name_of(p: &str) -> (r: String)
    ensures
        r@ == name_of(p@),
{
    let chars = text::str_to_chars(p);
    let n = chars.len();
    let cut: usize = match last_index_of(&chars, '/') {
        Some(i) => i + 1,
        None => 0,
    };
    let name = text::subrange_chars(&chars, cut, n);
    proof {
        assert(name@ =~= name_of(p@));
    }
    text::chars_to_string(&name)
}

/// The stem of a path's file name.
pub fn file_stem_of(p: &str) -> (r: String)
    ensures
        r@ == stem_of(name_of(p@)),
{
    let name = file_name_of(p);
    let chars = text::str_to_chars(name.as_str());
    let cut: usize = match last_index_of(&chars, '.') {
        Some(i) => if i > 0 {
            i
        } else {
            chars.len()
        },
        None => chars.len(),
    };
    let stem = text::subrange_chars(&chars, 0, cut);
    proof {
        assert(stem@ =~= stem_of(name_of(p@)));
    }
    text::chars_to_string(&stem)
}

/// The extension of a path's file name, when it has one.
pub fn extension_of(p: &str) -> (r: Option<String>)
    ensures
        match r {
            Some(e) => ext_of(name_of(p@)) == Some(e@),
            None => ext_of(name_of(p@)) is None,
        },
{
    let name = file_name_of(p);
    let chars = text::str_to_chars(name.as_str());
    let n = chars.len();
    match last_index_of(&chars, '.') {
        Some(i) => {
            if i > 0 {
                let ext = text::subrange_chars(&chars, i + 1, n);
                proof {
                    assert(ext@ =~= ext_of(name_of(p@)).unwrap());
                }
                Some(text::chars_to_string(&ext))
            } else {
                None
            }
        },
        None => None,
    }
}

/// Joins two path strings.
pub fn join_path(a: &str, b: &str) -> (r: String)
    ensures
        r@ == join_spec(a@, b@),
{
    let n = a.unicode_len();
    if n == 0 {
        let r = b.to_owned();
        proof {
            assert(r@ =~= join_spec(a@, b@));
        }
        r
    } else if a.get_char(n - 1) == '/' {
        let r = a.to_owned().concat(b);
        proof {
            assert(r@ =~= join_spec(a@, b@));
        }
        r
    } else {
        let mut r = a.to_owned();
        text::push_char(&mut r, '/');
        let r = r.concat(b);
        proof {
            assert(r@ =~= join_spec(a@, b@));
        }
        r
    }
}

} // verus!
