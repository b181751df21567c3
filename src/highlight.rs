//! Highlight regions of one line: which byte spans of it read as changed.
//!
//! Change spans are ordered by start, spans separated by nothing but ASCII
//! whitespace are joined, and a line whose every non-whitespace character is
//! covered collapses to a single full-line region.
use crate::difftastic::Change;
use smallvec::SmallVec;
use vstd::prelude::*;
use vstd::std_specs::iter::IteratorSpec;
use vstd::utf8::{char_is_scalar, encode_scalar, encode_utf8};

verus! {

/// A highlighted span of a line.
///
/// `end` is an exclusive byte offset, or `-1`: the highlight then covers the
/// whole line, whatever its length.
#[derive(Debug, Clone, Copy, PartialEq, Eq, Structural)]
pub struct HighlightRegion {
    /// Start byte offset (inclusive).
    pub start: u32,
    /// End byte offset (exclusive), or `FULL_LINE_END`.
    pub end: i32,
}

/// The highlight regions of one line, in order. Most lines have at most
/// two, which are stored inline.
#[verifier::external_body]
#[derive(Debug, PartialEq, Eq)]
pub struct Highlights {
    regions: SmallVec<[HighlightRegion; 2]>,
}

/// The regions that a `Highlights` holds, in order.
pub uninterp spec fn highlight_items(v: Highlights) -> Seq<HighlightRegion>;

impl Clone for Highlights {
    /// Relies on `SmallVec::clone`: the same regions.
    #[verifier::external_body]
    fn clone(&self) -> (r: Self)
        ensures
            highlight_items(r) == highlight_items(*self),
    {
        Highlights { regions: self.regions.clone() }
    }
}

impl Highlights {
    /// Relies on `SmallVec::new`: no regions.
    #[verifier::external_body]
    pub fn new() -> (r: Self)
        ensures
            highlight_items(r) == Seq::<HighlightRegion>::empty(),
    {
        Highlights { regions: SmallVec::new() }
    }

    /// Relies on `SmallVec::push`: appends `region` after the others.
    #[verifier::external_body]
    pub fn push(&mut self, region: HighlightRegion)
        ensures
            highlight_items(*final(self)) == highlight_items(*old(self)).push(region),
    {
        self.regions.push(region)
    }

    /// The number of regions.
    pub fn len(&self) -> (r: usize)
        ensures
            r as int == highlight_items(*self).len(),
    {
        self.as_slice().len()
    }

    /// The region at index `i`.
    pub fn get(&self, i: usize) -> (r: &HighlightRegion)
        requires
            i < highlight_items(*self).len(),
        ensures
            *r == highlight_items(*self)[i as int],
    {
        &self.as_slice()[i]
    }

    /// Whether there are no regions.
    pub fn is_empty(&self) -> (r: bool)
        ensures
            r == (highlight_items(*self).len() == 0),
    {
        self.len() == 0
    }

    /// Relies on `SmallVec::as_slice`: the regions, in order.
    #[verifier::external_body]
    pub fn as_slice(&self) -> (r: &[HighlightRegion])
        ensures
            r@ == highlight_items(*self),
    {
        self.regions.as_slice()
    }
}

/// Byte spans `(start, end)` of one line, in order. Lines rarely have more
/// than four changes; up to four are stored inline.
#[verifier::external_body]
#[derive(Debug)]
pub struct Spans {
    items: SmallVec<[(u32, u32); 4]>,
}

/// The spans that a `Spans` holds, in order.
pub uninterp spec fn span_items(v: Spans) -> Seq<(u32, u32)>;

impl Spans {
    /// Relies on `SmallVec::new`: no spans.
    #[verifier::external_body]
    pub fn new() -> (r: Self)
        ensures
            span_items(r) == Seq::<(u32, u32)>::empty(),
    {
        Spans { items: SmallVec::new() }
    }

    /// Relies on `SmallVec::push`: appends `span` after the others.
    #[verifier::external_body]
    pub fn push(&mut self, span: (u32, u32))
        ensures
            span_items(*final(self)) == span_items(*old(self)).push(span),
    {
        self.items.push(span)
    }

    /// Relies on `SmallVec::insert`: puts `span` at `index`, shifting the
    /// spans from there on by one.
    #[verifier::external_body]
    pub fn insert(&mut self, index: usize, span: (u32, u32))
        requires
            index <= span_items(*old(self)).len(),
        ensures
            span_items(*final(self)) == span_items(*old(self)).insert(index as int, span),
    {
        self.items.insert(index, span)
    }

    /// Relies on `SmallVec`'s `IndexMut`: replaces the span at `index`.
    #[verifier::external_body]
    pub fn set(&mut self, index: usize, span: (u32, u32))
        requires
            index < span_items(*old(self)).len(),
        ensures
            span_items(*final(self)) == span_items(*old(self)).update(index as int, span),
    {
        self.items[index] = span;
    }

    /// Relies on `SmallVec::as_slice`: the spans, in order.
    #[verifier::external_body]
    pub fn as_slice(&self) -> (r: &[(u32, u32)])
        ensures
            r@ == span_items(*self),
    {
        self.items.as_slice()
    }

    /// The number of spans.
    pub fn len(&self) -> (r: usize)
        ensures
            r as int == span_items(*self).len(),
    {
        self.as_slice().len()
    }
}

/// The `end` that marks a region covering the whole line.
pub const FULL_LINE_END: i32 = -1;

/// The region that covers the whole line.
pub open spec fn full_line_region() -> HighlightRegion {
    HighlightRegion { start: 0, end: FULL_LINE_END }
}

/// The region of a byte span; an end beyond `i32::MAX` is clamped to it.
pub open spec fn column_region(span: (u32, u32)) -> HighlightRegion {
    HighlightRegion {
        start: span.0,
        end: if span.1 <= i32::MAX as u32 {
            span.1 as i32
        } else {
            i32::MAX
        },
    }
}

/// The highlight regions of a line `cs` whose changed spans are `changes`:
/// none without changes; the whole line when a single change spans it, or
/// when the merged spans cover all of its non-whitespace characters;
/// otherwise the merged spans themselves.
pub open spec fn highlights_for(cs: Seq<char>, changes: Seq<Change>) -> Seq<HighlightRegion> {
    if changes.len() == 0 {
        Seq::empty()
    } else if changes.len() == 1 && changes[0].start == 0 && changes[0].end >= utf8_len(cs) {
        seq![full_line_region()]
    } else {
        let merged = merge_spans(sort_by_start(spans_of(changes)), encode_utf8(cs));
        if covers_all(cs, merged) {
            seq![full_line_region()]
        } else {
            merged.map_values(|span: (u32, u32)| column_region(span))
        }
    }
}

impl HighlightRegion {
    /// The region that covers the whole line.
    pub fn full_line() -> (r: Self)
        ensures
            r == full_line_region(),
    {
        HighlightRegion { start: 0, end: FULL_LINE_END }
    }

    /// The region of the byte span `[start, end)`.
    pub fn columns(start: u32, end: u32) -> (r: Self)
        ensures
            r == column_region((start, end)),
    {
        let end = if end <= i32::MAX as u32 {
            end as i32
        } else {
            i32::MAX
        };
        HighlightRegion { start, end }
    }

    /// Whether the region covers the whole line.
    pub fn is_full_line(&self) -> (r: bool)
        ensures
            r == (self.end == FULL_LINE_END),
    {
        self.end == FULL_LINE_END
    }
}

/// True for the bytes that `u8::is_ascii_whitespace` accepts: space, tab,
/// line feed, form feed and carriage return.
pub open spec fn is_ascii_blank(b: u8) -> bool {
    b == 0x20u8 || b == 0x09u8 || b == 0x0au8 || b == 0x0cu8 || b == 0x0du8
}

/// The byte range `[start, end)` lies within `bytes` and holds only ASCII
/// whitespace.
pub open spec fn blank_run(bytes: Seq<u8>, start: int, end: int) -> bool {
    &&& 0 <= start <= end <= bytes.len()
    &&& forall|i: int| start <= i < end ==> is_ascii_blank(#[trigger] bytes[i])
}

/// A span that starts at `gap_end` joins the running region that ends at
/// `gap_start`: they overlap or touch, or the bytes between them are blank.
pub open spec fn joins(gap_start: u32, gap_end: u32, bytes: Seq<u8>) -> bool {
    gap_start >= gap_end || blank_run(bytes, gap_start as int, gap_end as int)
}

/// Left-to-right merge of spans sorted by start: each span either extends
/// the last region (to the larger of the two ends) or opens a new one.
pub open spec fn merge_spans(spans: Seq<(u32, u32)>, bytes: Seq<u8>) -> Seq<(u32, u32)>
    decreases spans.len(),
{
    if spans.len() == 0 {
        Seq::empty()
    } else {
        let merged = merge_spans(spans.drop_last(), bytes);
        let (start, end) = spans.last();
        if merged.len() > 0 && joins(merged.last().1, start, bytes) {
            let (last_start, last_end) = merged.last();
            let new_end = if end > last_end { end } else { last_end };
            merged.update(merged.len() - 1, (last_start, new_end))
        } else {
            merged.push((start, end))
        }
    }
}

/// The index at which a span starting at `key` enters `spans` (sorted by
/// start): after every span whose start is at most `key`.
pub open spec fn insertion_point(spans: Seq<(u32, u32)>, key: u32) -> int
    decreases spans.len(),
{
    if spans.len() == 0 {
        0
    } else if spans.last().0 <= key {
        spans.len() as int
    } else {
        insertion_point(spans.drop_last(), key)
    }
}

/// `spans` ordered by start; spans with equal starts keep their order.
pub open spec fn sort_by_start(spans: Seq<(u32, u32)>) -> Seq<(u32, u32)>
    decreases spans.len(),
{
    if spans.len() == 0 {
        spans
    } else {
        let sorted = sort_by_start(spans.drop_last());
        let x = spans.last();
        sorted.insert(insertion_point(sorted, x.0), x)
    }
}

/// The `(start, end)` byte span of each change.
pub open spec fn spans_of(changes: Seq<Change>) -> Seq<(u32, u32)> {
    changes.map_values(|c: Change| (c.start, c.end))
}

proof fn lemma_insertion_point_bounds(spans: Seq<(u32, u32)>, key: u32)
    ensures
        0 <= insertion_point(spans, key) <= spans.len(),
    decreases spans.len(),
{
    if spans.len() > 0 {
        lemma_insertion_point_bounds(spans.drop_last(), key);
    }
}

proof fn lemma_sort_len(spans: Seq<(u32, u32)>)
    ensures
        sort_by_start(spans).len() == spans.len(),
    decreases spans.len(),
{
    if spans.len() > 0 {
        lemma_sort_len(spans.drop_last());
        let sorted = sort_by_start(spans.drop_last());
        lemma_insertion_point_bounds(sorted, spans.last().0);
    }
}

/// Whether `b` is ASCII whitespace.
pub fn ascii_blank(b: u8) -> (r: bool)
    ensures
        r == is_ascii_blank(b),
{
    b == 0x20u8 || b == 0x09u8 || b == 0x0au8 || b == 0x0cu8 || b == 0x0du8
}

/// Whether `bytes[start..end]` exists and holds only ASCII whitespace.
pub fn is_whitespace_only(bytes: &[u8], start: usize, end: usize) -> (r: bool)
    ensures
        r == blank_run(bytes@, start as int, end as int),
{
    if start > end || end > bytes.len() {
        return false;
    }
    let mut i: usize = start;
    while i < end
        invariant
            start <= i <= end <= bytes@.len(),
            forall|j: int| start <= j < i ==> is_ascii_blank(#[trigger] bytes@[j]),
        decreases end - i,
    {
        if !ascii_blank(bytes[i]) {
            return false;
        }
        i += 1;
    }
    true
}

/// Merges spans sorted by start, bridging gaps that hold only whitespace.
pub fn merge_regions(regions: &[(u32, u32)], bytes: &[u8]) -> (merged: Spans)
    ensures
        span_items(merged) == merge_spans(regions@, bytes@),
{
    let mut merged = Spans::new();
    let mut i: usize = 0;
    while i < regions.len()
        invariant
            i <= regions@.len(),
            span_items(merged) == merge_spans(regions@.take(i as int), bytes@),
        decreases regions@.len() - i,
    {
        let (start, end) = regions[i];
        proof {
            assert(regions@.take(i + 1).drop_last() =~= regions@.take(i as int));
        }
        let n = merged.len();
        if n > 0 && (merged.as_slice()[n - 1].1 >= start || is_whitespace_only(
            bytes,
            merged.as_slice()[n - 1].1 as usize,
            start as usize,
        )) {
            let (last_start, last_end) = merged.as_slice()[n - 1];
            let new_end = if end > last_end {
                end
            } else {
                last_end
            };
            merged.set(n - 1, (last_start, new_end));
        } else {
            merged.push((start, end));
        }
        i += 1;
    }
    proof {
        assert(regions@.take(regions@.len() as int) =~= regions@);
    }
    merged
}

/// Index at which a span starting at `key` is inserted into `sorted`.
fn insertion_index(sorted: &[(u32, u32)], key: u32) -> (r: usize)
    ensures
        r as int == insertion_point(sorted@, key),
        r <= sorted@.len(),
{
    let mut i: usize = sorted.len();
    proof {
        assert(sorted@.take(i as int) =~= sorted@);
    }
    while i > 0 && sorted[i - 1].0 > key
        invariant
            i <= sorted@.len(),
            insertion_point(sorted@.take(i as int), key) == insertion_point(sorted@, key),
        decreases i,
    {
        proof {
            assert(sorted@.take(i as int).drop_last() =~= sorted@.take(i - 1));
        }
        i -= 1;
    }
    i
}

/// The spans of `changes`, ordered by start (equal starts keep their order).
pub fn sorted_spans(changes: &[Change]) -> (r: Spans)
    ensures
        span_items(r) == sort_by_start(spans_of(changes@)),
{
    let mut sorted = Spans::new();
    let mut i: usize = 0;
    while i < changes.len()
        invariant
            i <= changes@.len(),
            span_items(sorted) == sort_by_start(spans_of(changes@).take(i as int)),
        decreases changes@.len() - i,
    {
        let span = (changes[i].start, changes[i].end);
        let at = insertion_index(sorted.as_slice(), span.0);
        proof {
            lemma_sort_len(spans_of(changes@).take(i as int));
            assert(spans_of(changes@).take(i + 1).drop_last() =~= spans_of(changes@).take(
                i as int,
            ));
            assert(spans_of(changes@).take(i + 1).last() == span);
        }
        sorted.insert(at, span);
        i += 1;
    }
    proof {
        assert(spans_of(changes@).take(i as int) =~= spans_of(changes@));
    }
    sorted
}

/// `c` has the Unicode White_Space property, which `char::is_whitespace`
/// tests: tab, line feed, vertical tab, form feed, carriage return, space,
/// next line, no-break space, ogham space mark, the spaces U+2000 to U+200A,
/// line and paragraph separators, narrow no-break space, medium mathematical
/// space and ideographic space.
pub open spec fn white_space(c: char) -> bool {
    let u = c as u32;
    ||| 0x09 <= u <= 0x0d
    ||| u == 0x20
    ||| u == 0x85
    ||| u == 0xa0
    ||| u == 0x1680
    ||| 0x2000 <= u <= 0x200a
    ||| u == 0x2028
    ||| u == 0x2029
    ||| u == 0x202f
    ||| u == 0x205f
    ||| u == 0x3000
}

/// Whether `c` is whitespace.
pub fn is_white_space(c: char) -> (r: bool)
    ensures
        r == white_space(c),
{
    let u = c as u32;
    (0x09 <= u && u <= 0x0d) || u == 0x20 || u == 0x85 || u == 0xa0 || u == 0x1680 || (0x2000 <= u
        && u <= 0x200a) || u == 0x2028 || u == 0x2029 || u == 0x202f || u == 0x205f || u == 0x3000
}

/// Offsets as mathematical integers.
pub open spec fn as_ints(offsets: Seq<usize>) -> Seq<int> {
    offsets.map_values(|o: usize| o as int)
}

/// Length in bytes of the UTF-8 encoding of `cs`.
pub open spec fn utf8_len(cs: Seq<char>) -> int {
    encode_utf8(cs).len() as int
}

/// Byte offsets, in the UTF-8 encoding of `cs`, at which its
/// non-whitespace characters start, in order.
pub open spec fn nonblank_starts(cs: Seq<char>) -> Seq<int>
    decreases cs.len(),
{
    if cs.len() == 0 {
        Seq::empty()
    } else {
        let rest = nonblank_starts(cs.drop_last());
        if white_space(cs.last()) {
            rest
        } else {
            rest.push(utf8_len(cs.drop_last()))
        }
    }
}

/// Some span contains byte position `pos`.
pub open spec fn covers_offset(spans: Seq<(u32, u32)>, pos: int) -> bool {
    exists|j: int| 0 <= j < spans.len() && #[trigger] spans[j].0 <= pos < spans[j].1
}

/// There is at least one offset, and the spans contain every one of them.
pub open spec fn covers_every(offsets: Seq<int>, spans: Seq<(u32, u32)>) -> bool {
    &&& offsets.len() > 0
    &&& forall|i: int| 0 <= i < offsets.len() ==> covers_offset(spans, #[trigger] offsets[i])
}

/// The spans cover every non-whitespace character of the line `cs`, and
/// there is at least one.
pub open spec fn covers_all(cs: Seq<char>, spans: Seq<(u32, u32)>) -> bool {
    covers_every(nonblank_starts(cs), spans)
}

proof fn lemma_encode_concat(a: Seq<char>, b: Seq<char>)
    ensures
        encode_utf8(a + b) == encode_utf8(a) + encode_utf8(b),
    decreases a.len(),
{
    if a.len() == 0 {
        assert(a + b =~= b);
        assert(encode_utf8(a) + encode_utf8(b) =~= encode_utf8(b));
    } else {
        lemma_encode_concat(a.drop_first(), b);
        assert((a + b).drop_first() =~= a.drop_first() + b);
        assert((a + b)[0] == a[0]);
        assert(encode_utf8(a + b) =~= encode_utf8(a) + encode_utf8(b));
    }
}

/// Number of bytes in the UTF-8 encoding of `c`.
pub fn utf8_width(c: char) -> (r: usize)
    ensures
        r as int == encode_scalar(c as u32).len(),
        1 <= r <= 4,
{
    proof {
        char_is_scalar(c);
    }
    let u = c as u32;
    if u <= 0x7f {
        1
    } else if u <= 0x7ff {
        2
    } else if u <= 0xffff {
        3
    } else {
        4
    }
}

/// Byte offsets at which the non-whitespace characters of `line` start.
pub fn nonblank_offsets(line: &str) -> (r: Vec<usize>)
    ensures
        as_ints(r@) == nonblank_starts(line@),
{
    let ghost cs = line@;
    let total = line.as_bytes().len();
    let mut out: Vec<usize> = Vec::new();
    let mut pos: usize = 0;
    let mut chars = line.chars();
    let ghost mut k: int = 0;
    proof {
        assert(cs.skip(0) =~= cs);
        assert(cs.take(0) =~= Seq::<char>::empty());
        assert(encode_utf8(Seq::<char>::empty()) =~= Seq::<u8>::empty());
    }
    loop
        invariant
            cs == line@,
            0 <= k <= cs.len(),
            chars.remaining() == cs.skip(k),
            pos as int == utf8_len(cs.take(k)),
            total as int == utf8_len(cs),
            as_ints(out@) == nonblank_starts(cs.take(k)),
        decreases cs.len() - k,
    {
        let ghost before = chars.remaining();
        match chars.next() {
            None => {
                proof {
                    assert(before.len() == 0);
                    assert(cs.take(k) =~= cs);
                }
                return out;
            },
            Some(c) => {
                let width = utf8_width(c);
                proof {
                    assert(cs.skip(k).drop_first() =~= cs.skip(k + 1));
                    let pre = cs.take(k);
                    let next = cs.take(k + 1);
                    assert(next =~= pre + seq![c]);
                    assert(next.drop_last() =~= pre);
                    lemma_encode_concat(pre, seq![c]);
                    assert(seq![c].drop_first() =~= Seq::<char>::empty());
                    assert(seq![c][0] == c);
                    assert(encode_utf8(Seq::<char>::empty()) =~= Seq::<u8>::empty());
                    assert(encode_utf8(seq![c]) =~= encode_scalar(c as u32));
                    assert(cs =~= next + cs.skip(k + 1));
                    lemma_encode_concat(next, cs.skip(k + 1));
                }
                if !is_white_space(c) {
                    out.push(pos);
                    proof {
                        assert(as_ints(out@) =~= nonblank_starts(
                            cs.take(k),
                        ).push(pos as int));
                    }
                }
                pos = pos + width;
                proof {
                    k = k + 1;
                }
            },
        }
    }
}

/// Whether some span contains byte position `pos`.
pub fn covered(regions: &[(u32, u32)], pos: usize) -> (r: bool)
    ensures
        r == covers_offset(regions@, pos as int),
{
    let mut j: usize = 0;
    while j < regions.len()
        invariant
            j <= regions@.len(),
            forall|m: int| 0 <= m < j ==> !(#[trigger] regions@[m].0 <= pos < regions@[m].1),
        decreases regions@.len() - j,
    {
        if regions[j].0 as usize <= pos && pos < regions[j].1 as usize {
            return true;
        }
        j += 1;
    }
    false
}

/// Whether there is at least one offset and every one lies in some span.
pub fn covers_offsets(offsets: &[usize], regions: &[(u32, u32)]) -> (r: bool)
    ensures
        r == covers_every(as_ints(offsets@), regions@),
{
    let ghost offs = as_ints(offsets@);
    let mut i: usize = 0;
    while i < offsets.len()
        invariant
            i <= offsets@.len(),
            offs == as_ints(offsets@),
            forall|m: int| 0 <= m < i ==> covers_offset(regions@, #[trigger] offs[m]),
        decreases offsets@.len() - i,
    {
        if !covered(regions, offsets[i]) {
            assert(!covers_offset(regions@, offs[i as int]));
            return false;
        }
        i += 1;
    }
    offsets.len() > 0
}

/// Whether the spans cover every non-whitespace character of `line`, and
/// the line has at least one.
pub fn covers_all_non_whitespace(line: &str, regions: &[(u32, u32)]) -> (r: bool)
    ensures
        r == covers_all(line@, regions@),
{
    let offsets = nonblank_offsets(line);
    covers_offsets(offsets.as_slice(), regions)
}

/// The highlights of a line changed as a whole.
pub fn full_line_highlights() -> (r: Highlights)
    ensures
        highlight_items(r) == seq![full_line_region()],
{
    let mut r = Highlights::new();
    r.push(HighlightRegion::full_line());
    assert(highlight_items(r) =~= seq![full_line_region()]);
    r
}

/// A line changed by a single change that spans all of its bytes is
/// highlighted whole.
pub proof fn lemma_full_span_is_full_line(line: Seq<char>, changes: Seq<Change>)
    requires
        changes.len() == 1,
        changes[0].start == 0,
        changes[0].end == utf8_len(line),
    ensures
        highlights_for(line, changes) == seq![full_line_region()],
{
}

/// Whenever the merged changes cover every non-whitespace character of a
/// line, however many changes there were, the line is highlighted whole:
/// a single full-line region.
pub proof fn lemma_covered_line_is_full_line(line: Seq<char>, changes: Seq<Change>)
    requires
        changes.len() > 0,
        covers_all(line, merge_spans(sort_by_start(spans_of(changes)), encode_utf8(line))),
    ensures
        highlights_for(line, changes) == seq![full_line_region()],
        highlights_for(line, changes).len() == 1,
{
}

/// Computes the highlight regions of `content`, given the changes on it.
pub fn compute_highlights(content: &str, changes: &[Change]) -> (r: Highlights)
    ensures
        highlight_items(r) == highlights_for(content@, changes@),
{
    if changes.len() == 0 {
        return Highlights::new();
    }
    let bytes = content.as_bytes();
    if changes.len() == 1 && changes[0].start == 0 && changes[0].end as usize >= bytes.len() {
        return full_line_highlights();
    }
    let sorted = sorted_spans(changes);
    let merged = merge_regions(sorted.as_slice(), bytes);
    if covers_all_non_whitespace(content, merged.as_slice()) {
        return full_line_highlights();
    }
    let ghost target = span_items(merged).map_values(|span: (u32, u32)| column_region(span));
    let mut out = Highlights::new();
    let mut i: usize = 0;
    while i < merged.len()
        invariant
            i <= span_items(merged).len(),
            target == span_items(merged).map_values(|span: (u32, u32)| column_region(span)),
            highlight_items(out) == target.take(i as int),
        decreases span_items(merged).len() - i,
    {
        let (start, end) = merged.as_slice()[i];
        out.push(HighlightRegion::columns(start, end));
        proof {
            assert(target.take(i + 1) =~= target.take(i as int).push(target[i as int]));
        }
        i += 1;
    }
    proof {
        assert(target.take(i as int) =~= target);
    }
    out
}

} // verus!
