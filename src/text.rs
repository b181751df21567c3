//! Lines of text and the whitespace around them.
use crate::highlight::{is_white_space, white_space};
use vstd::prelude::*;
use vstd::std_specs::iter::IteratorSpec;
use vstd::string::{StrSliceExecFns, StringExecFns};

verus! {

/// Index of the first `c` in `s`, or `s.len()` when there is none.
pub open spec fn first_index_of(s: Seq<char>, c: char) -> nat
    decreases s.len(),
{
    if s.len() == 0 || s[0] == c {
        0
    } else {
        (1 + first_index_of(s.drop_first(), c)) as nat
    }
}

/// The pieces of `s` between occurrences of `sep`; at least one.
pub open spec fn split_on(s: Seq<char>, sep: char) -> Seq<Seq<char>>
    decreases s.len(),
{
    let i = first_index_of(s, sep);
    if i >= s.len() {
        seq![s]
    } else {
        seq![s.take(i as int)] + split_on(s.skip(i as int + 1), sep)
    }
}

/// `line` without one trailing `\r`, if it has one.
pub open spec fn strip_cr(line: Seq<char>) -> Seq<char> {
    if line.len() > 0 && line.last() == '\r' {
        line.drop_last()
    } else {
        line
    }
}

/// The lines of `s`: split at each `\n`, a `\r` right before it dropped
/// too; a final `\n` ends the last line rather than starting an empty one.
pub open spec fn lines_of(s: Seq<char>) -> Seq<Seq<char>>
    decreases s.len(),
{
    if s.len() == 0 {
        Seq::empty()
    } else {
        let i = first_index_of(s, '\n');
        if i >= s.len() {
            seq![s]
        } else {
            seq![strip_cr(s.take(i as int))] + lines_of(s.skip(i as int + 1))
        }
    }
}

/// The text of each string.
pub open spec fn texts(v: Seq<String>) -> Seq<Seq<char>> {
    v.map_values(|s: String| s@)
}

/// Relies on `str::lines`: the lines of the text, split at `\n` or `\r\n`,
/// without their terminators; the final terminator is optional.
#[verifier::external_body]
pub(crate) fn split_lines_of(s: &str) -> (r: Vec<String>)
    ensures
        texts(r@) == lines_of(s@),
{
    s.lines().map(String::from).collect()
}

/// The lines of `content`; none when there is no content.
pub fn into_lines(content: Option<String>) -> (r: Vec<String>)
    ensures
        texts(r@) == match content {
            Some(c) => lines_of(c@),
            None => Seq::empty(),
        },
{
    match content {
        Some(c) => split_lines_of(c.as_str()),
        None => {
            let r: Vec<String> = Vec::new();
            assert(texts(r@) =~= Seq::<Seq<char>>::empty());
            r
        },
    }
}

/// Every character of `s` is whitespace.
pub open spec fn is_blank(s: Seq<char>) -> bool {
    forall|i: int| 0 <= i < s.len() ==> white_space(#[trigger] s[i])
}

/// The lines of `lines` that are not blank, in order.
pub open spec fn nonblank(lines: Seq<Seq<char>>) -> Seq<Seq<char>>
    decreases lines.len(),
{
    if lines.len() == 0 {
        lines
    } else if is_blank(lines.last()) {
        nonblank(lines.drop_last())
    } else {
        nonblank(lines.drop_last()).push(lines.last())
    }
}

/// Whether `s` is empty or all whitespace.
pub fn blank(s: &str) -> (r: bool)
    ensures
        r == is_blank(s@),
{
    let ghost cs = s@;
    let n = s.unicode_len();
    let mut chars = s.chars();
    let mut k: usize = 0;
    proof {
        assert(cs.skip(0) =~= cs);
    }
    loop
        invariant
            cs == s@,
            n == cs.len(),
            k <= n,
            chars.remaining() == cs.skip(k as int),
            forall|j: int| 0 <= j < k ==> white_space(#[trigger] cs[j]),
        decreases n - k,
    {
        let ghost before = chars.remaining();
        match chars.next() {
            None => {
                proof {
                    assert(before.len() == 0);
                }
                return true;
            },
            Some(c) => {
                proof {
                    assert(cs.skip(k as int).drop_first() =~= cs.skip(k + 1));
                    assert(c == cs[k as int]);
                }
                if !is_white_space(c) {
                    return false;
                }
                k += 1;
            },
        }
    }
}

/// The lines of `text` that hold something besides whitespace, in order.
pub fn nonblank_lines(text: &str) -> (r: Vec<String>)
    ensures
        texts(r@) == nonblank(lines_of(text@)),
{
    let lines = split_lines_of(text);
    let ghost all = lines_of(text@);
    let mut out: Vec<String> = Vec::new();
    let mut i: usize = 0;
    proof {
        assert(all.take(0) =~= Seq::<Seq<char>>::empty());
        assert(texts(out@) =~= Seq::<Seq<char>>::empty());
    }
    while i < lines.len()
        invariant
            i <= lines@.len(),
            texts(lines@) == all,
            texts(out@) == nonblank(all.take(i as int)),
        decreases lines@.len() - i,
    {
        proof {
            assert(all.take(i + 1).drop_last() =~= all.take(i as int));
            assert(texts(lines@)[i as int] == lines@[i as int]@);
        }
        if !blank(lines[i].as_str()) {
            let line = lines[i].clone();
            let ghost before = out@;
            out.push(line);
            assert(texts(out@) =~= texts(before).push(lines@[i as int]@));
        }
        i += 1;
    }
    proof {
        assert(all.take(i as int) =~= all);
    }
    out
}

proof fn lemma_first_index_at(s: Seq<char>, c: char, m: int)
    requires
        0 <= m <= s.len(),
        forall|j: int| 0 <= j < m ==> s[j] != c,
        m == s.len() || s[m] == c,
    ensures
        first_index_of(s, c) == m,
    decreases m,
{
    if m > 0 {
        let t = s.drop_first();
        assert forall|j: int| 0 <= j < m - 1 implies t[j] != c by {
            assert(t[j] == s[j + 1]);
        }
        if m < s.len() {
            assert(t[m - 1] == s[m]);
        }
        lemma_first_index_at(t, c, m - 1);
    }
}

/// The pieces of `s` between occurrences of `sep`, in order.
pub fn split_fields(s: &str, sep: char) -> (r: Vec<String>)
    ensures
        texts(r@) == split_on(s@, sep),
{
    let ghost cs = s@;
    let n = s.unicode_len();
    let mut chars = s.chars();
    let mut out: Vec<String> = Vec::new();
    let mut k: usize = 0;
    let mut st: usize = 0;
    proof {
        assert(cs.skip(0) =~= cs);
        assert(texts(out@) + split_on(cs.skip(0), sep) =~= split_on(cs, sep));
    }
    loop
        invariant
            cs == s@,
            n == cs.len(),
            st <= k <= n,
            chars.remaining() == cs.skip(k as int),
            forall|j: int| st <= j < k ==> cs[j] != sep,
            split_on(cs, sep) == texts(out@) + split_on(cs.skip(st as int), sep),
        decreases n - k,
    {
        let ghost before = chars.remaining();
        let ghost t = cs.skip(st as int);
        match chars.next() {
            None => {
                let piece = s.substring_char(st, n);
                let ghost prev = out@;
                out.push(String::from_str(piece));
                proof {
                    assert(before.len() == 0);
                    assert forall|j: int| 0 <= j < t.len() implies t[j] != sep by {
                        assert(t[j] == cs[st + j]);
                    }
                    lemma_first_index_at(t, sep, t.len() as int);
                    assert(piece@ =~= t);
                    assert(texts(out@) =~= texts(prev).push(t));
                    assert(texts(out@) =~= texts(prev) + split_on(t, sep));
                }
                return out;
            },
            Some(c) => {
                proof {
                    assert(cs.skip(k as int).drop_first() =~= cs.skip(k + 1));
                    assert(c == cs[k as int]);
                }
                if c == sep {
                    let piece = s.substring_char(st, k);
                    let ghost prev = out@;
                    out.push(String::from_str(piece));
                    proof {
                        let m = k - st;
                        assert forall|j: int| 0 <= j < m implies t[j] != sep by {
                            assert(t[j] == cs[st + j]);
                        }
                        assert(t[m] == cs[k as int]);
                        lemma_first_index_at(t, sep, m);
                        assert(piece@ =~= t.take(m));
                        assert(t.skip(m + 1) =~= cs.skip(k + 1));
                        assert(texts(out@) =~= texts(prev).push(t.take(m)));
                        assert(texts(out@) + split_on(cs.skip(k + 1), sep) =~= texts(prev)
                            + split_on(t, sep));
                    }
                    st = k + 1;
                }
                k += 1;
            },
        }
    }
}

} // verus!
