//! Turns one file of difftastic's output into side-by-side display rows.
//!
//! Created and deleted files become one row per line, all on one side.
//! Changed files follow difftastic's alignment: one row per aligned pair,
//! each side with its text, a filler flag and its highlight regions. Row
//! indices at which a run of changed rows begins are recorded as hunk starts.
use crate::difftastic::{Change, Chunk, DiffLine, DifftFile, Status};
use crate::highlight::{
    compute_highlights, full_line_highlights, full_line_region, highlight_items, highlights_for,
    HighlightRegion, Highlights,
};
use std::collections::HashMap;
use std::path::PathBuf;
use vstd::prelude::*;

verus! {

/// One side (left or right) of a display row.
#[derive(Debug, Clone, PartialEq, Eq)]
pub struct Side {
    /// The text of the line; empty for a filler.
    pub content: String,
    /// Whether this side only holds the place of a line of the other side.
    pub is_filler: bool,
    /// Regions of the line to highlight as changed.
    pub highlights: Highlights,
}

/// A row of the side-by-side display: the old line left, the new one right.
#[derive(Debug, Clone, PartialEq, Eq)]
pub struct Row {
    pub left: Side,
    pub right: Side,
}

/// A file ready for display.
#[derive(Debug, Clone, PartialEq, Eq)]
pub struct DisplayFile {
    pub path: PathBuf,
    /// The language difftastic detected.
    pub language: String,
    pub status: Status,
    /// Count of added lines.
    pub additions: u32,
    /// Count of deleted lines.
    pub deletions: u32,
    /// The rows, in display order.
    pub rows: Vec<Row>,
    /// Row indices at which hunks start, for navigation.
    pub hunk_starts: Vec<u32>,
}

/// `side` holds `content`, the filler flag `filler` and the regions `hl`.
pub open spec fn side_is(side: Side, content: Seq<char>, filler: bool, hl: Seq<HighlightRegion>) -> bool {
    &&& side.content@ == content
    &&& side.is_filler == filler
    &&& highlight_items(side.highlights) == hl
}

/// A filler side: no text, no highlights.
pub open spec fn is_filler_side(side: Side) -> bool {
    side_is(side, Seq::empty(), true, Seq::empty())
}

/// A real line `content`, highlighted as a whole.
pub open spec fn is_full_side(side: Side, content: Seq<char>) -> bool {
    side_is(side, content, false, seq![full_line_region()])
}

impl Side {
    /// A side with the given text, filler flag and highlights.
    pub fn new(content: String, is_filler: bool, highlights: Highlights) -> (r: Self)
        ensures
            r.content == content,
            r.is_filler == is_filler,
            r.highlights == highlights,
    {
        Side { content, is_filler, highlights }
    }

    /// A filler side.
    pub fn filler() -> (r: Self)
        ensures
            is_filler_side(r),
    {
        Side::new(String::new(), true, Highlights::new())
    }

    /// A side holding `content`, highlighted as a whole line.
    pub fn with_full_highlight(content: String) -> (r: Self)
        ensures
            is_full_side(r, content@),
    {
        Side::new(content, false, full_line_highlights())
    }
}

/// A count as reported in a `u32` field: saturated at `u32::MAX`.
pub open spec fn count_u32(n: int) -> u32 {
    if n <= u32::MAX as int {
        n as u32
    } else {
        u32::MAX
    }
}

/// The hunk starts of a wholly created or deleted file of `n` lines: the
/// whole file is one hunk.
pub open spec fn single_hunk(n: int) -> Seq<int> {
    if n > 0 {
        seq![0int]
    } else {
        Seq::empty()
    }
}

/// Row indices as mathematical integers.
pub open spec fn row_indices(v: Seq<u32>) -> Seq<int> {
    v.map_values(|x: u32| x as int)
}

/// One row per line of a created file: filler left, the line right,
/// highlighted whole.
pub open spec fn created_rows(rows: Seq<Row>, new_lines: Seq<String>) -> bool {
    &&& rows.len() == new_lines.len()
    &&& forall|i: int|
        0 <= i < rows.len() ==> is_filler_side(#[trigger] rows[i].left) && is_full_side(
            rows[i].right,
            new_lines[i]@,
        )
}

/// One row per line of a deleted file: the line left, highlighted whole,
/// filler right.
pub open spec fn deleted_rows(rows: Seq<Row>, old_lines: Seq<String>) -> bool {
    &&& rows.len() == old_lines.len()
    &&& forall|i: int|
        0 <= i < rows.len() ==> is_full_side(#[trigger] rows[i].left, old_lines[i]@)
            && is_filler_side(rows[i].right)
}

/// The side of a diff line that belongs to the old file (`old`) or the new.
pub open spec fn side_of(line: DiffLine, old: bool) -> Option<crate::difftastic::Side> {
    if old {
        line.lhs
    } else {
        line.rhs
    }
}

/// `index` with the line number of `side`, if any, mapped to its changes.
pub open spec fn record_side(
    index: Map<u32, Seq<Change>>,
    side: Option<crate::difftastic::Side>,
) -> Map<u32, Seq<Change>> {
    match side {
        Some(s) => index.insert(s.line_number, s.changes@),
        None => index,
    }
}

/// `index` after recording one side of each of `lines`, in order; a later
/// entry for a line number replaces an earlier one.
pub open spec fn index_lines(index: Map<u32, Seq<Change>>, lines: Seq<DiffLine>, old: bool) -> Map<
    u32,
    Seq<Change>,
>
    decreases lines.len(),
{
    if lines.len() == 0 {
        index
    } else {
        record_side(index_lines(index, lines.drop_last(), old), side_of(lines.last(), old))
    }
}

/// Line number to changes, for one side, over every diff line of every
/// chunk in order (the last entry for a line number wins).
pub open spec fn index_chunks(chunks: Seq<Chunk>, old: bool) -> Map<u32, Seq<Change>>
    decreases chunks.len(),
{
    if chunks.len() == 0 {
        Map::empty()
    } else {
        index_lines(index_chunks(chunks.drop_last(), old), chunks.last()@, old)
    }
}

/// What a lookup table of borrowed change lists says.
pub open spec fn changes_view(m: Map<u32, &Vec<Change>>) -> Map<u32, Seq<Change>> {
    Map::new(|k: u32| m.contains_key(k), |k: u32| m[k]@)
}

/// The text shown for line `ln` of `lines`: empty when absent or out of range.
pub open spec fn line_text(lines: Seq<String>, ln: Option<u32>) -> Seq<char> {
    match ln {
        Some(n) => if (n as int) < lines.len() {
            lines[n as int]@
        } else {
            Seq::empty()
        },
        None => Seq::empty(),
    }
}

/// The highlights of line `ln`: those of its changes in `index`, or none.
pub open spec fn line_highlights(
    lines: Seq<String>,
    index: Map<u32, Seq<Change>>,
    ln: Option<u32>,
) -> Seq<HighlightRegion> {
    match ln {
        Some(n) => if index.contains_key(n) {
            highlights_for(line_text(lines, ln), index[n])
        } else {
            Seq::empty()
        },
        None => Seq::empty(),
    }
}

/// `side` shows line `ln` of `lines`, a filler where `ln` is absent.
pub open spec fn shows_line(
    side: Side,
    lines: Seq<String>,
    index: Map<u32, Seq<Change>>,
    ln: Option<u32>,
) -> bool {
    side_is(side, line_text(lines, ln), ln is None, line_highlights(lines, index, ln))
}

/// Whether the row of alignment entry `entry` reads as changed: a side is
/// missing, or a side has highlights.
pub open spec fn entry_changed(
    entry: (Option<u32>, Option<u32>),
    old_lines: Seq<String>,
    new_lines: Seq<String>,
    old_index: Map<u32, Seq<Change>>,
    new_index: Map<u32, Seq<Change>>,
) -> bool {
    ||| entry.0 is None
    ||| entry.1 is None
    ||| line_highlights(old_lines, old_index, entry.0).len() > 0
    ||| line_highlights(new_lines, new_index, entry.1).len() > 0
}

/// For each alignment entry, whether its row reads as changed.
pub open spec fn change_flags(
    plan: Seq<(Option<u32>, Option<u32>)>,
    chunks: Seq<Chunk>,
    old_lines: Seq<String>,
    new_lines: Seq<String>,
) -> Seq<bool> {
    Seq::new(
        plan.len(),
        |i: int|
            entry_changed(
                plan[i],
                old_lines,
                new_lines,
                index_chunks(chunks, true),
                index_chunks(chunks, false),
            ),
    )
}

/// Indices `i` with `flags[i]` set and `flags[i - 1]` not (or `i == 0`):
/// the first row of each maximal run of changed rows, in order.
pub open spec fn hunk_starts_of(flags: Seq<bool>) -> Seq<int>
    decreases flags.len(),
{
    if flags.len() == 0 {
        Seq::empty()
    } else {
        let rest = hunk_starts_of(flags.drop_last());
        let i = flags.len() - 1;
        if flags[i] && (i == 0 || !flags[i - 1]) {
            rest.push(i)
        } else {
            rest
        }
    }
}

/// The rows of a changed file: one per alignment entry, in order, each side
/// showing its line of the old or new file with that line's highlights.
pub open spec fn aligned_rows(
    rows: Seq<Row>,
    plan: Seq<(Option<u32>, Option<u32>)>,
    chunks: Seq<Chunk>,
    old_lines: Seq<String>,
    new_lines: Seq<String>,
) -> bool {
    &&& rows.len() == plan.len()
    &&& forall|i: int|
        0 <= i < rows.len() ==> shows_line(
            #[trigger] rows[i].left,
            old_lines,
            index_chunks(chunks, true),
            plan[i].0,
        ) && shows_line(rows[i].right, new_lines, index_chunks(chunks, false), plan[i].1)
}

/// Processes a newly created file: every line is an addition.
pub fn process_created(file: DifftFile, new_lines: Vec<String>) -> (r: DisplayFile)
    ensures
        r.path == file.path,
        r.language == file.language,
        r.status == file.status,
        created_rows(r.rows@, new_lines@),
        r.additions == count_u32(new_lines@.len() as int),
        r.deletions == 0,
        row_indices(r.hunk_starts@) == single_hunk(new_lines@.len() as int),
{
    let mut rows: Vec<Row> = Vec::with_capacity(new_lines.len());
    let mut i: usize = 0;
    while i < new_lines.len()
        invariant
            i <= new_lines@.len(),
            rows@.len() == i,
            forall|j: int|
                0 <= j < i ==> is_filler_side(#[trigger] rows@[j].left) && is_full_side(
                    rows@[j].right,
                    new_lines@[j]@,
                ),
        decreases new_lines@.len() - i,
    {
        rows.push(Row { left: Side::filler(), right: Side::with_full_highlight(new_lines[i].clone()) });
        i += 1;
    }
    let additions = if rows.len() <= u32::MAX as usize {
        rows.len() as u32
    } else {
        u32::MAX
    };
    let hunk_starts = if rows.len() == 0 {
        Vec::new()
    } else {
        vec![0u32]
    };
    assert(row_indices(hunk_starts@) =~= single_hunk(new_lines@.len() as int));
    DisplayFile {
        path: file.path,
        language: file.language,
        status: file.status,
        additions,
        deletions: 0,
        rows,
        hunk_starts,
    }
}

/// Processes a deleted file: every line is a deletion.
pub fn process_deleted(file: DifftFile, old_lines: Vec<String>) -> (r: DisplayFile)
    ensures
        r.path == file.path,
        r.language == file.language,
        r.status == file.status,
        deleted_rows(r.rows@, old_lines@),
        r.additions == 0,
        r.deletions == count_u32(old_lines@.len() as int),
        row_indices(r.hunk_starts@) == single_hunk(old_lines@.len() as int),
{
    let mut rows: Vec<Row> = Vec::with_capacity(old_lines.len());
    let mut i: usize = 0;
    while i < old_lines.len()
        invariant
            i <= old_lines@.len(),
            rows@.len() == i,
            forall|j: int|
                0 <= j < i ==> is_full_side(#[trigger] rows@[j].left, old_lines@[j]@)
                    && is_filler_side(rows@[j].right),
        decreases old_lines@.len() - i,
    {
        rows.push(Row { left: Side::with_full_highlight(old_lines[i].clone()), right: Side::filler() });
        i += 1;
    }
    let deletions = if rows.len() <= u32::MAX as usize {
        rows.len() as u32
    } else {
        u32::MAX
    };
    let hunk_starts = if rows.len() == 0 {
        Vec::new()
    } else {
        vec![0u32]
    };
    assert(row_indices(hunk_starts@) =~= single_hunk(old_lines@.len() as int));
    DisplayFile {
        path: file.path,
        language: file.language,
        status: file.status,
        additions: 0,
        deletions,
        rows,
        hunk_starts,
    }
}

/// Builds the line number to changes lookups of the old side and the new
/// side. A line number met again replaces the earlier entry.
pub fn extract_changes<'a>(chunks: &'a [Chunk]) -> (r: (
    HashMap<u32, &'a Vec<Change>>,
    HashMap<u32, &'a Vec<Change>>,
))
    ensures
        changes_view(r.0@) == index_chunks(chunks@, true),
        changes_view(r.1@) == index_chunks(chunks@, false),
{
    let mut lhs_changes: HashMap<u32, &'a Vec<Change>> = HashMap::new();
    let mut rhs_changes: HashMap<u32, &'a Vec<Change>> = HashMap::new();
    proof {
        assert(chunks@.take(0) =~= Seq::<Chunk>::empty());
        assert(changes_view(lhs_changes@) =~= Map::<u32, Seq<Change>>::empty());
        assert(changes_view(rhs_changes@) =~= Map::<u32, Seq<Change>>::empty());
    }
    let mut i: usize = 0;
    while i < chunks.len()
        invariant
            i <= chunks@.len(),
            changes_view(lhs_changes@) == index_chunks(chunks@.take(i as int), true),
            changes_view(rhs_changes@) == index_chunks(chunks@.take(i as int), false),
        decreases chunks@.len() - i,
    {
        let chunk = &chunks[i];
        let ghost lhs_before = index_chunks(chunks@.take(i as int), true);
        let ghost rhs_before = index_chunks(chunks@.take(i as int), false);
        let mut j: usize = 0;
        proof {
            assert(chunk@.take(0) =~= Seq::<DiffLine>::empty());
        }
        while j < chunk.len()
            invariant
                j <= chunk@.len(),
                changes_view(lhs_changes@) == index_lines(lhs_before, chunk@.take(j as int), true),
                changes_view(rhs_changes@) == index_lines(rhs_before, chunk@.take(j as int), false),
            decreases chunk@.len() - j,
        {
            let diff_line = &chunk[j];
            proof {
                assert(chunk@.take(j + 1).drop_last() =~= chunk@.take(j as int));
                assert(chunk@.take(j + 1).last() == *diff_line);
            }
            if let Some(side) = &diff_line.lhs {
                let ghost before = lhs_changes@;
                lhs_changes.insert(side.line_number, &side.changes);
                assert(changes_view(lhs_changes@) =~= changes_view(before).insert(
                    side.line_number,
                    side.changes@,
                ));
            }
            if let Some(side) = &diff_line.rhs {
                let ghost before = rhs_changes@;
                rhs_changes.insert(side.line_number, &side.changes);
                assert(changes_view(rhs_changes@) =~= changes_view(before).insert(
                    side.line_number,
                    side.changes@,
                ));
            }
            j += 1;
        }
        proof {
            assert(chunk@.take(j as int) =~= chunk@);
            assert(chunks@.take(i + 1).drop_last() =~= chunks@.take(i as int));
            assert(chunks@.take(i + 1).last() == *chunk);
        }
        i += 1;
    }
    proof {
        assert(chunks@.take(i as int) =~= chunks@);
    }
    (lhs_changes, rhs_changes)
}

/// The side of a row that shows line `ln` of `lines`.
pub fn build_side(lines: &[String], index: &HashMap<u32, &Vec<Change>>, ln: Option<u32>) -> (r:
    Side)
    ensures
        shows_line(r, lines@, changes_view(index@), ln),
{
    match ln {
        None => Side::filler(),
        Some(n) => {
            let content = if (n as usize) < lines.len() {
                lines[n as usize].clone()
            } else {
                String::new()
            };
            let highlights = match index.get(&n) {
                Some(changes) => compute_highlights(content.as_str(), changes.as_slice()),
                None => Highlights::new(),
            };
            Side::new(content, false, highlights)
        },
    }
}

/// Processes a changed file along difftastic's alignment of its lines.
pub fn process_changed(file: DifftFile, old_lines: &[String], new_lines: &[String]) -> (r:
    DisplayFile)
    requires
        file.aligned_lines@.len() <= u32::MAX,
    ensures
        r.path == file.path,
        r.language == file.language,
        r.status == file.status,
        aligned_rows(r.rows@, file.aligned_lines@, file.chunks@, old_lines@, new_lines@),
        row_indices(r.hunk_starts@) == hunk_starts_of(
            change_flags(file.aligned_lines@, file.chunks@, old_lines@, new_lines@),
        ),
        r.additions == count_u32(index_chunks(file.chunks@, false).len() as int),
        r.deletions == count_u32(index_chunks(file.chunks@, true).len() as int),
{
    let (lhs_changes, rhs_changes) = extract_changes(file.chunks.as_slice());
    let ghost plan = file.aligned_lines@;
    let ghost old_index = index_chunks(file.chunks@, true);
    let ghost new_index = index_chunks(file.chunks@, false);
    let ghost flags = change_flags(plan, file.chunks@, old_lines@, new_lines@);
    let num_rows = file.aligned_lines.len();
    let mut rows: Vec<Row> = Vec::with_capacity(num_rows);
    let mut hunk_starts: Vec<u32> = Vec::new();
    let mut in_hunk = false;
    let mut row_idx: usize = 0;
    proof {
        assert(flags.take(0) =~= Seq::<bool>::empty());
        assert(row_indices(hunk_starts@) =~= Seq::<int>::empty());
    }
    while row_idx < num_rows
        invariant
            num_rows == plan.len(),
            plan == file.aligned_lines@,
            num_rows <= u32::MAX,
            row_idx <= num_rows,
            old_index == index_chunks(file.chunks@, true),
            new_index == index_chunks(file.chunks@, false),
            changes_view(lhs_changes@) == old_index,
            changes_view(rhs_changes@) == new_index,
            flags == change_flags(plan, file.chunks@, old_lines@, new_lines@),
            rows@.len() == row_idx,
            forall|i: int|
                0 <= i < row_idx ==> shows_line(#[trigger] rows@[i].left, old_lines@, old_index, plan[i].0)
                    && shows_line(rows@[i].right, new_lines@, new_index, plan[i].1),
            row_indices(hunk_starts@) == hunk_starts_of(flags.take(row_idx as int)),
            in_hunk == (row_idx > 0 && flags[row_idx - 1]),
        decreases num_rows - row_idx,
    {
        let (lhs_ln, rhs_ln) = file.aligned_lines[row_idx];
        let left = build_side(old_lines, &lhs_changes, lhs_ln);
        let right = build_side(new_lines, &rhs_changes, rhs_ln);
        let is_changed = lhs_ln.is_none() || rhs_ln.is_none() || !left.highlights.is_empty()
            || !right.highlights.is_empty();
        proof {
            assert(is_changed == flags[row_idx as int]);
            assert(flags.take(row_idx + 1).drop_last() =~= flags.take(row_idx as int));
        }
        if is_changed && !in_hunk {
            hunk_starts.push(row_idx as u32);
            in_hunk = true;
            proof {
                assert(row_indices(hunk_starts@) =~= hunk_starts_of(flags.take(row_idx as int)).push(
                    row_idx as int,
                ));
            }
        } else if !is_changed {
            in_hunk = false;
        }
        rows.push(Row { left, right });
        row_idx += 1;
    }
    proof {
        assert(flags.take(row_idx as int) =~= flags);
    }
    let additions = if rhs_changes.len() <= u32::MAX as usize {
        rhs_changes.len() as u32
    } else {
        u32::MAX
    };
    let deletions = if lhs_changes.len() <= u32::MAX as usize {
        lhs_changes.len() as u32
    } else {
        u32::MAX
    };
    proof {
        assert(changes_view(rhs_changes@).dom() =~= rhs_changes@.dom());
        assert(changes_view(lhs_changes@).dom() =~= lhs_changes@.dom());
    }
    DisplayFile {
        path: file.path,
        language: file.language,
        status: file.status,
        additions,
        deletions,
        rows,
        hunk_starts,
    }
}

/// Every alignment entry names a line on at least one side.
pub open spec fn plan_is_valid(plan: Seq<(Option<u32>, Option<u32>)>) -> bool {
    forall|i: int| 0 <= i < plan.len() ==> !(#[trigger] plan[i].0 is None && plan[i].1 is None)
}

/// `(additions, deletions)` as derived from the file itself: the line count
/// of a created or deleted file, or, for a changed file, the number of
/// distinct line numbers with changes on the new and the old side.
pub open spec fn derived_counts(file: DifftFile, old_lines: Seq<String>, new_lines: Seq<String>) -> (
    u32,
    u32,
) {
    match file.status {
        Status::Created => (count_u32(new_lines.len() as int), 0),
        Status::Deleted => (0, count_u32(old_lines.len() as int)),
        Status::Changed => (
            count_u32(index_chunks(file.chunks@, false).len() as int),
            count_u32(index_chunks(file.chunks@, true).len() as int),
        ),
    }
}

/// The number of rows of a file's display.
pub open spec fn row_count(file: DifftFile, old_lines: Seq<String>, new_lines: Seq<String>) -> int {
    match file.status {
        Status::Created => new_lines.len() as int,
        Status::Deleted => old_lines.len() as int,
        Status::Changed => file.aligned_lines@.len() as int,
    }
}

/// The rows and hunk starts that a file's status calls for.
pub open spec fn display_follows(
    r: DisplayFile,
    file: DifftFile,
    old_lines: Seq<String>,
    new_lines: Seq<String>,
) -> bool {
    match file.status {
        Status::Created => created_rows(r.rows@, new_lines) && row_indices(r.hunk_starts@)
            == single_hunk(new_lines.len() as int),
        Status::Deleted => deleted_rows(r.rows@, old_lines) && row_indices(r.hunk_starts@)
            == single_hunk(old_lines.len() as int),
        Status::Changed => aligned_rows(
            r.rows@,
            file.aligned_lines@,
            file.chunks@,
            old_lines,
            new_lines,
        ) && row_indices(r.hunk_starts@) == hunk_starts_of(
            change_flags(file.aligned_lines@, file.chunks@, old_lines, new_lines),
        ),
    }
}

/// Hunk starts are strictly increasing row indices within the rows, and a
/// sequence of rows none of which is changed has none.
pub proof fn lemma_hunk_starts_of_ordered(flags: Seq<bool>)
    ensures
        forall|i: int, j: int|
            0 <= i < j < hunk_starts_of(flags).len() ==> hunk_starts_of(flags)[i]
                < hunk_starts_of(flags)[j],
        forall|i: int|
            0 <= i < hunk_starts_of(flags).len() ==> 0 <= #[trigger] hunk_starts_of(flags)[i]
                < flags.len(),
        (forall|i: int| 0 <= i < flags.len() ==> !#[trigger] flags[i]) ==> hunk_starts_of(
            flags,
        ).len() == 0,
    decreases flags.len(),
{
    if flags.len() > 0 {
        let rest = flags.drop_last();
        lemma_hunk_starts_of_ordered(rest);
        let prev = hunk_starts_of(rest);
        let all = hunk_starts_of(flags);
        let last = flags.len() - 1;
        if flags[last] && (last == 0 || !flags[last - 1]) {
            assert(all == prev.push(last));
            assert forall|i: int| 0 <= i < all.len() implies 0 <= #[trigger] all[i] < flags.len() by {
                if i < prev.len() {
                    assert(all[i] == prev[i]);
                }
            }
            assert forall|i: int, j: int| 0 <= i < j < all.len() implies all[i] < all[j] by {
                assert(all[i] == prev[i]);
                if j < prev.len() {
                    assert(all[j] == prev[j]);
                }
            }
        } else {
            assert(all == prev);
        }
        if forall|i: int| 0 <= i < flags.len() ==> !#[trigger] flags[i] {
            assert forall|i: int| 0 <= i < rest.len() implies !#[trigger] rest[i] by {
                assert(rest[i] == flags[i]);
            }
            assert(!flags[last]);
        }
    }
}

/// No diff line of `chunks` records a change on either side.
pub open spec fn chunks_without_changes(chunks: Seq<Chunk>) -> bool {
    forall|i: int, j: int|
        0 <= i < chunks.len() && 0 <= j < chunks[i]@.len() ==> {
            &&& (#[trigger] chunks[i]@[j]).lhs matches Some(s) ==> s.changes@.len() == 0
            &&& chunks[i]@[j].rhs matches Some(s) ==> s.changes@.len() == 0
        }
}

/// Every line that `index` knows has no changes.
pub open spec fn index_is_empty_handed(index: Map<u32, Seq<Change>>) -> bool {
    forall|k: u32| #[trigger] index.contains_key(k) ==> index[k].len() == 0
}

proof fn lemma_index_lines_empty_handed(
    index: Map<u32, Seq<Change>>,
    lines: Seq<DiffLine>,
    old: bool,
)
    requires
        index_is_empty_handed(index),
        forall|j: int|
            0 <= j < lines.len() ==> ((#[trigger] lines[j]).lhs matches Some(s)
                ==> s.changes@.len() == 0) && (lines[j].rhs matches Some(s) ==> s.changes@.len()
                == 0),
    ensures
        index_is_empty_handed(index_lines(index, lines, old)),
    decreases lines.len(),
{
    if lines.len() > 0 {
        let rest = lines.drop_last();
        assert forall|j: int|
            0 <= j < rest.len() implies ((#[trigger] rest[j]).lhs matches Some(s)
                ==> s.changes@.len() == 0) && (rest[j].rhs matches Some(s) ==> s.changes@.len()
                == 0) by {
            assert(rest[j] == lines[j]);
        }
        lemma_index_lines_empty_handed(index, rest, old);
        assert(lines[lines.len() - 1] == lines.last());
    }
}

proof fn lemma_index_chunks_empty_handed(chunks: Seq<Chunk>, old: bool)
    requires
        chunks_without_changes(chunks),
    ensures
        index_is_empty_handed(index_chunks(chunks, old)),
    decreases chunks.len(),
{
    if chunks.len() > 0 {
        let rest = chunks.drop_last();
        assert forall|i: int, j: int|
            0 <= i < rest.len() && 0 <= j < rest[i]@.len() implies {
                &&& (#[trigger] rest[i]@[j]).lhs matches Some(s) ==> s.changes@.len() == 0
                &&& rest[i]@[j].rhs matches Some(s) ==> s.changes@.len() == 0
            } by {
            assert(rest[i] == chunks[i]);
            assert(chunks[i]@[j] == rest[i]@[j]);
        }
        lemma_index_chunks_empty_handed(rest, old);
        let last = chunks.last()@;
        assert forall|j: int|
            0 <= j < last.len() implies ((#[trigger] last[j]).lhs matches Some(s)
                ==> s.changes@.len() == 0) && (last[j].rhs matches Some(s) ==> s.changes@.len()
                == 0) by {
            assert(chunks[chunks.len() - 1]@[j] == last[j]);
        }
        lemma_index_lines_empty_handed(index_chunks(rest, old), last, old);
    }
}

/// A changed file whose alignment pairs real lines on both sides in every
/// row, and whose chunks record no change on any line, shows no highlights
/// in any row and has no hunk.
pub proof fn lemma_unchanged_plan_has_no_hunks(
    plan: Seq<(Option<u32>, Option<u32>)>,
    chunks: Seq<Chunk>,
    old_lines: Seq<String>,
    new_lines: Seq<String>,
)
    requires
        forall|i: int| 0 <= i < plan.len() ==> (#[trigger] plan[i]).0 is Some && plan[i].1 is Some,
        chunks_without_changes(chunks),
    ensures
        forall|i: int|
            0 <= i < plan.len() ==> line_highlights(
                old_lines,
                index_chunks(chunks, true),
                (#[trigger] plan[i]).0,
            ).len() == 0 && line_highlights(new_lines, index_chunks(chunks, false), plan[i].1).len()
                == 0,
        hunk_starts_of(change_flags(plan, chunks, old_lines, new_lines)).len() == 0,
{
    lemma_index_chunks_empty_handed(chunks, true);
    lemma_index_chunks_empty_handed(chunks, false);
    let flags = change_flags(plan, chunks, old_lines, new_lines);
    assert forall|i: int| 0 <= i < flags.len() implies !#[trigger] flags[i] by {
        assert(plan[i].0 is Some && plan[i].1 is Some);
    }
    lemma_hunk_starts_of_ordered(flags);
}

/// Processes one file of difftastic's output into display rows.
///
/// Created files become one addition row per line of `new_lines`, deleted
/// files one deletion row per line of `old_lines`, and changed files one row
/// per entry of `aligned_lines`. Counts given in `file_stats`, as
/// `(additions, deletions)`, take precedence over those derived from the
/// file.
pub fn process_file(
    file: DifftFile,
    old_lines: Vec<String>,
    new_lines: Vec<String>,
    file_stats: Option<(u32, u32)>,
) -> (r: DisplayFile)
    requires
        file.status == Status::Changed ==> file.aligned_lines@.len() <= u32::MAX,
    ensures
        r.path == file.path,
        r.language == file.language,
        r.status == file.status,
        display_follows(r, file, old_lines@, new_lines@),
        r.rows@.len() == row_count(file, old_lines@, new_lines@),
        (r.additions, r.deletions) == match file_stats {
            Some(stats) => stats,
            None => derived_counts(file, old_lines@, new_lines@),
        },
        file.status == Status::Changed ==> plan_is_valid(file.aligned_lines@) ==> forall|i: int|
            0 <= i < r.rows@.len() ==> !(#[trigger] r.rows@[i].left.is_filler
                && r.rows@[i].right.is_filler),
        file.status != Status::Changed ==> forall|i: int|
            0 <= i < r.rows@.len() ==> !(#[trigger] r.rows@[i].left.is_filler
                && r.rows@[i].right.is_filler),
        forall|i: int, j: int|
            0 <= i < j < r.hunk_starts@.len() ==> r.hunk_starts@[i] < r.hunk_starts@[j],
        forall|i: int| 0 <= i < r.hunk_starts@.len() ==> #[trigger] r.hunk_starts@[i] < r.rows@.len(),
{
    let ghost f = file;
    let mut display = match file.status {
        Status::Created => process_created(file, new_lines),
        Status::Deleted => process_deleted(file, old_lines),
        Status::Changed => process_changed(file, old_lines.as_slice(), new_lines.as_slice()),
    };
    proof {
        let hs = display.hunk_starts@;
        let idx = row_indices(hs);
        assert(idx.len() == hs.len());
        assert(forall|i: int| 0 <= i < hs.len() ==> idx[i] == hs[i] as int);
        if f.status == Status::Changed {
            let flags = change_flags(f.aligned_lines@, f.chunks@, old_lines@, new_lines@);
            lemma_hunk_starts_of_ordered(flags);
            assert(idx == hunk_starts_of(flags));
            assert forall|i: int| 0 <= i < hs.len() implies #[trigger] hs[i] < display.rows@.len() by {
                assert(idx[i] == hunk_starts_of(flags)[i]);
            }
            assert forall|i: int, j: int| 0 <= i < j < hs.len() implies hs[i] < hs[j] by {
                assert(idx[i] == hunk_starts_of(flags)[i]);
                assert(idx[j] == hunk_starts_of(flags)[j]);
            }
        }
    }
    if let Some((additions, deletions)) = file_stats {
        display.additions = additions;
        display.deletions = deletions;
    }
    display
}

} // verus!
