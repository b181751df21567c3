//! Revision ranges: `old..new`, or a single revision diffed against its
//! parent.
use vstd::prelude::*;
use vstd::string::{StrSliceExecFns, StringExecFns};
use vstd::std_specs::iter::IteratorSpec;

verus! {

/// `s` holds `..` at char index `i`.
pub open spec fn dots_at(s: Seq<char>, i: int) -> bool {
    0 <= i && i + 1 < s.len() && s[i] == '.' && s[i + 1] == '.'
}

/// `i` is the first char index at which `s` holds `..`.
pub open spec fn first_dots(s: Seq<char>, i: int) -> bool {
    dots_at(s, i) && forall|j: int| 0 <= j < i ==> !dots_at(s, j)
}

/// The char index of the first `..` in `s`, if there is one.
pub fn find_dots(s: &str) -> (r: Option<usize>)
    ensures
        match r {
            Some(i) => first_dots(s@, i as int),
            None => forall|j: int| !dots_at(s@, j),
        },
{
    let ghost cs = s@;
    let n = s.unicode_len();
    let mut chars = s.chars();
    let mut k: usize = 0;
    let mut prev_dot = false;
    proof {
        assert(cs.skip(0) =~= cs);
    }
    loop
        invariant
            cs == s@,
            n == cs.len(),
            k <= cs.len(),
            chars.remaining() == cs.skip(k as int),
            prev_dot == (k > 0 && cs[k - 1] == '.'),
            forall|j: int| 0 <= j && j + 1 < k ==> !dots_at(cs, j),
        decreases cs.len() - k,
    {
        let ghost before = chars.remaining();
        match chars.next() {
            None => {
                proof {
                    assert(before.len() == 0);
                    assert forall|j: int| !dots_at(cs, j) by {
                        if 0 <= j && j + 1 < cs.len() {
                            assert(j + 1 < k);
                        }
                    }
                }
                return None;
            },
            Some(c) => {
                proof {
                    assert(cs.skip(k as int).drop_first() =~= cs.skip(k + 1));
                    assert(c == cs[k as int]);
                    assert(k < n);
                }
                if c == '.' && prev_dot {
                    return Some(k - 1);
                }
                prev_dot = c == '.';
                k += 1;
            },
        }
    }
}

/// Splits a revision range into its old and new ends.
///
/// `old..new` splits at its first `..`; a single revision `rev` stands for
/// the diff of its parent, written `rev` followed by `parent_suffix`, to
/// `rev`.
pub fn parse_range(range: &str, parent_suffix: &str) -> (r: (String, String))
    ensures
        forall|i: int|
            first_dots(range@, i) ==> r.0@ == range@.take(i) && r.1@ == range@.skip(i + 2),
        (forall|j: int| !dots_at(range@, j)) ==> r.0@ == range@ + parent_suffix@ && r.1@
            == range@,
{
    match find_dots(range) {
        Some(i) => {
            let n = range.unicode_len();
            let old = range.substring_char(0, i);
            let new = range.substring_char(i + 2, n);
            proof {
                assert forall|m: int| first_dots(range@, m) implies m == i as int by {
                    if m < i {
                        assert(!dots_at(range@, m));
                    } else if m > i {
                        assert(!dots_at(range@, i as int));
                    }
                }
                assert(old@ =~= range@.take(i as int));
                assert(new@ =~= range@.skip(i + 2));
            }
            (String::from_str(old), String::from_str(new))
        },
        None => {
            let old = String::from_str(range).concat(parent_suffix);
            (old, String::from_str(range))
        },
    }
}

} // verus!
