//! What the version-control tools print, read into plain values: per-file
//! line counts of `git diff --numstat`, commit ids, and the range to ask
//! for counts.
use crate::highlight::{is_white_space, white_space};
use crate::text::{split_fields, split_lines_of, split_on, texts, lines_of};
use vstd::prelude::*;
use vstd::string::{StrSliceExecFns, StringExecFns};

verus! {

/// `c` is an ASCII decimal digit.
pub open spec fn is_digit(c: char) -> bool {
    '0' <= c <= '9'
}

/// The value of the decimal digits `s`.
pub open spec fn decimal_value(s: Seq<char>) -> int
    decreases s.len(),
{
    if s.len() == 0 {
        0
    } else {
        10 * decimal_value(s.drop_last()) + (s.last() as int - '0' as int)
    }
}

/// `s` without one leading `+`, if it has one.
pub open spec fn unsigned_digits(s: Seq<char>) -> Seq<char> {
    if s.len() > 0 && s[0] == '+' {
        s.drop_first()
    } else {
        s
    }
}

/// The number that `s` spells as `u32::from_str` reads it: an optional `+`,
/// then one or more decimal digits, of a value that fits in a `u32`.
pub open spec fn parse_u32(s: Seq<char>) -> Option<u32> {
    let digits = unsigned_digits(s);
    if digits.len() > 0 && (forall|i: int| 0 <= i < digits.len() ==> is_digit(#[trigger] digits[i]))
        && decimal_value(digits) <= u32::MAX {
        Some(decimal_value(digits) as u32)
    } else {
        None
    }
}

proof fn lemma_decimal_nonneg(s: Seq<char>)
    requires
        forall|i: int| 0 <= i < s.len() ==> is_digit(#[trigger] s[i]),
    ensures
        decimal_value(s) >= 0,
    decreases s.len(),
{
    if s.len() > 0 {
        let p = s.drop_last();
        assert forall|i: int| 0 <= i < p.len() implies is_digit(#[trigger] p[i]) by {
            assert(p[i] == s[i]);
        }
        lemma_decimal_nonneg(p);
        assert(is_digit(s[s.len() - 1]));
    }
}

proof fn lemma_decimal_monotone(s: Seq<char>, k: int)
    requires
        0 <= k <= s.len(),
        forall|i: int| 0 <= i < s.len() ==> is_digit(#[trigger] s[i]),
    ensures
        decimal_value(s.take(k)) <= decimal_value(s),
    decreases s.len() - k,
{
    if k < s.len() {
        lemma_decimal_monotone(s, k + 1);
        let a = s.take(k + 1);
        assert(a.drop_last() =~= s.take(k));
        assert(is_digit(a.last()));
        assert forall|i: int| 0 <= i < s.take(k).len() implies is_digit(#[trigger] s.take(k)[i]) by {
            assert(s.take(k)[i] == s[i]);
        }
        lemma_decimal_nonneg(s.take(k));
    } else {
        assert(s.take(k) =~= s);
    }
}

/// Reads a `u32` the way `u32::from_str` does.
pub fn parse_decimal(s: &str) -> (r: Option<u32>)
    ensures
        r == parse_u32(s@),
{
    let ghost cs = s@;
    let n = s.unicode_len();
    let start: usize = if n > 0 && s.get_char(0) == '+' {
        1
    } else {
        0
    };
    let ghost digits = unsigned_digits(cs);
    if start >= n {
        return None;
    }
    let mut value: u32 = 0;
    let mut i: usize = start;
    proof {
        assert(digits.take(0) =~= Seq::<char>::empty());
    }
    while i < n
        invariant
            cs == s@,
            n == cs.len(),
            start <= i <= n,
            start < n,
            digits == unsigned_digits(cs),
            digits =~= cs.skip(start as int),
            forall|j: int| 0 <= j < i - start ==> is_digit(#[trigger] digits[j]),
            value as int == decimal_value(digits.take(i - start)),
        decreases n - i,
    {
        let c = s.get_char(i);
        let ghost m = i - start;
        proof {
            assert(c == digits[m]);
        }
        if c < '0' || c > '9' {
            proof {
                assert(!is_digit(digits[m]));
                assert(!(forall|j: int| 0 <= j < digits.len() ==> is_digit(#[trigger] digits[j])));
                assert(parse_u32(cs) is None);
            }
            return None;
        }
        let d = (c as u32) - ('0' as u32);
        proof {
            assert(digits.take(m + 1).drop_last() =~= digits.take(m));
            assert(digits.take(m + 1).last() == c);
        }
        if value > 429496729 || (value == 429496729 && d > 5) {
            proof {
                assert(decimal_value(digits.take(m + 1)) == 10 * value as int + d as int);
                assert(decimal_value(digits.take(m + 1)) > u32::MAX);
                if forall|j: int| 0 <= j < digits.len() ==> is_digit(#[trigger] digits[j]) {
                    lemma_decimal_monotone(digits, m + 1);
                }
                assert(parse_u32(cs) is None);
            }
            return None;
        }
        value = value * 10 + d;
        i += 1;
    }
    proof {
        assert(digits.take(n - start) =~= digits);
    }
    Some(value)
}

/// One line of `git diff --numstat` (`added<TAB>deleted<TAB>path`) read as
/// `(path, added, deleted)`; nothing when a count is not a number, as for
/// binary files, or a field is missing.
pub open spec fn numstat_entry(line: Seq<char>) -> Option<(Seq<char>, u32, u32)> {
    let f = split_on(line, '\t');
    if f.len() >= 3 && parse_u32(f[0]) is Some && parse_u32(f[1]) is Some {
        Some((f[2], parse_u32(f[0])->0, parse_u32(f[1])->0))
    } else {
        None
    }
}

/// The entries of the lines that read as numstat entries, in order.
pub open spec fn numstat_entries(lines: Seq<Seq<char>>) -> Seq<(Seq<char>, u32, u32)>
    decreases lines.len(),
{
    if lines.len() == 0 {
        Seq::empty()
    } else {
        let rest = numstat_entries(lines.drop_last());
        match numstat_entry(lines.last()) {
            Some(e) => rest.push(e),
            None => rest,
        }
    }
}

/// What an entry with a path as `String` says.
pub open spec fn entry_view(e: (String, u32, u32)) -> (Seq<char>, u32, u32) {
    (e.0@, e.1, e.2)
}

/// Reads one line of `git diff --numstat`.
pub fn parse_numstat_line(line: &str) -> (r: Option<(String, u32, u32)>)
    ensures
        r matches Some(e) ==> numstat_entry(line@) == Some(entry_view(e)),
        r is None ==> numstat_entry(line@) is None,
{
    let fields = split_fields(line, '\t');
    proof {
        assert(fields@.len() == split_on(line@, '\t').len());
    }
    if fields.len() < 3 {
        return None;
    }
    proof {
        assert(fields@[0]@ == texts(fields@)[0]);
        assert(fields@[1]@ == texts(fields@)[1]);
        assert(fields@[2]@ == texts(fields@)[2]);
    }
    let added = match parse_decimal(fields[0].as_str()) {
        Some(v) => v,
        None => return None,
    };
    let deleted = match parse_decimal(fields[1].as_str()) {
        Some(v) => v,
        None => return None,
    };
    Some((fields[2].clone(), added, deleted))
}

/// Reads the output of `git diff --numstat`: `(path, added, deleted)` for
/// each line that holds such an entry, in order.
pub fn parse_numstat(text: &str) -> (r: Vec<(String, u32, u32)>)
    ensures
        r@.map_values(|e: (String, u32, u32)| entry_view(e)) == numstat_entries(lines_of(text@)),
{
    let lines = split_lines_of(text);
    let ghost all = lines_of(text@);
    let mut out: Vec<(String, u32, u32)> = Vec::new();
    let mut i: usize = 0;
    proof {
        assert(all.take(0) =~= Seq::<Seq<char>>::empty());
        assert(out@.map_values(|e: (String, u32, u32)| entry_view(e)) =~= Seq::<
            (Seq<char>, u32, u32),
        >::empty());
    }
    while i < lines.len()
        invariant
            i <= lines@.len(),
            texts(lines@) == all,
            out@.map_values(|e: (String, u32, u32)| entry_view(e)) == numstat_entries(
                all.take(i as int),
            ),
        decreases lines@.len() - i,
    {
        proof {
            assert(all.take(i + 1).drop_last() =~= all.take(i as int));
            assert(texts(lines@)[i as int] == lines@[i as int]@);
        }
        match parse_numstat_line(lines[i].as_str()) {
            Some(e) => {
                let ghost before = out@;
                out.push(e);
                assert(out@.map_values(|e: (String, u32, u32)| entry_view(e)) =~= before.map_values(
                    |e: (String, u32, u32)| entry_view(e),
                ).push(entry_view(e)));
            },
            None => {},
        }
        i += 1;
    }
    proof {
        assert(all.take(i as int) =~= all);
    }
    out
}

/// `s[a..b]` is `s` with its leading and trailing whitespace removed.
pub open spec fn trim_bounds(s: Seq<char>, a: int, b: int) -> bool {
    &&& 0 <= a <= b <= s.len()
    &&& forall|i: int| 0 <= i < a ==> white_space(#[trigger] s[i])
    &&& forall|i: int| b <= i < s.len() ==> white_space(#[trigger] s[i])
    &&& a < b ==> !white_space(s[a]) && !white_space(s[b - 1])
}

/// `t` is `s` with its leading and trailing whitespace removed.
pub open spec fn is_trim_of(t: Seq<char>, s: Seq<char>) -> bool {
    exists|a: int, b: int| trim_bounds(s, a, b) && t == s.subrange(a, b)
}

/// `s` without its leading and trailing whitespace.
pub fn trim_whitespace(s: &str) -> (r: String)
    ensures
        is_trim_of(r@, s@),
{
    let n = s.unicode_len();
    let mut a: usize = 0;
    while a < n && is_white_space(s.get_char(a))
        invariant
            n == s@.len(),
            a <= n,
            forall|i: int| 0 <= i < a ==> white_space(#[trigger] s@[i]),
        decreases n - a,
    {
        a += 1;
    }
    let mut b: usize = n;
    while b > a && is_white_space(s.get_char(b - 1))
        invariant
            n == s@.len(),
            a <= b <= n,
            a < n ==> !white_space(s@[a as int]),
            forall|i: int| b <= i < n ==> white_space(#[trigger] s@[i]),
        decreases b,
    {
        b -= 1;
    }
    let t = s.substring_char(a, b);
    assert(trim_bounds(s@, a as int, b as int));
    String::from_str(t)
}

/// `c` is an ASCII hexadecimal digit.
pub open spec fn is_hex_digit(c: char) -> bool {
    ('0' <= c <= '9') || ('a' <= c <= 'f') || ('A' <= c <= 'F')
}

/// `t` is a full git commit id: forty hexadecimal digits.
pub open spec fn is_commit_id(t: Seq<char>) -> bool {
    t.len() == 40 && forall|i: int| 0 <= i < t.len() ==> is_hex_digit(#[trigger] t[i])
}

/// The commit id that `jj log -T commit_id` printed: the output without
/// surrounding whitespace, when that is forty hexadecimal digits.
pub fn commit_id(output: &str) -> (r: Option<String>)
    ensures
        forall|t: Seq<char>| #[trigger] is_trim_of(t, output@) ==> (match r {
            Some(id) => id@ == t && is_commit_id(t),
            None => !is_commit_id(t),
        }),
{
    let t = trim_whitespace(output);
    proof {
        assert forall|u: Seq<char>| #[trigger] is_trim_of(u, output@) implies u == t@ by {
            lemma_trim_unique(output@, u, t@);
        }
    }
    let n = t.as_str().unicode_len();
    if n != 40 {
        return None;
    }
    let mut i: usize = 0;
    while i < n
        invariant
            n == t@.len(),
            i <= n,
            forall|u: Seq<char>| #[trigger] is_trim_of(u, output@) ==> u == t@,
            forall|j: int| 0 <= j < i ==> is_hex_digit(#[trigger] t@[j]),
        decreases n - i,
    {
        let c = t.as_str().get_char(i);
        if !(('0' <= c && c <= '9') || ('a' <= c && c <= 'f') || ('A' <= c && c <= 'F')) {
            assert(!is_hex_digit(t@[i as int]));
            return None;
        }
        i += 1;
    }
    Some(t)
}

proof fn lemma_trim_unique(s: Seq<char>, t: Seq<char>, u: Seq<char>)
    requires
        is_trim_of(t, s),
        is_trim_of(u, s),
    ensures
        t == u,
{
    let (a, b) = choose|a: int, b: int| trim_bounds(s, a, b) && t == s.subrange(a, b);
    let (c, d) = choose|c: int, d: int| trim_bounds(s, c, d) && u == s.subrange(c, d);
    if a < b && c < d {
        if a < c {
            assert(white_space(s[a]));
        } else if c < a {
            assert(white_space(s[c]));
        }
        if b < d {
            assert(white_space(s[d - 1]));
        } else if d < b {
            assert(white_space(s[b - 1]));
        }
    } else if a < b {
        assert(white_space(s[a]));
    } else if c < d {
        assert(white_space(s[c]));
    }
    assert(t =~= u);
}

/// The commit range to count lines over, given the commit ids of the two
/// ends: `old..new`; with no old end, the new commit against its parent
/// (`new^..new`); nothing without a new end.
pub fn stats_range(old_commit: Option<String>, new_commit: Option<String>) -> (r: Option<String>)
    ensures
        match (old_commit, new_commit) {
            (Some(o), Some(n)) => r matches Some(x) && x@ == o@ + ".."@ + n@,
            (None, Some(n)) => r matches Some(x) && x@ == n@ + "^.."@ + n@,
            _ => r is None,
        },
{
    match (old_commit, new_commit) {
        (Some(o), Some(n)) => Some(o.concat("..").concat(n.as_str())),
        (None, Some(n)) => {
            let head = n.clone();
            Some(head.concat("^..").concat(n.as_str()))
        },
        _ => None,
    }
}

} // verus!
