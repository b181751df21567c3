use difftastic_nvim::difftastic::Side as DiffSide;
use difftastic_nvim::highlight::{covers_offsets, merge_regions, nonblank_offsets, sorted_spans};
use difftastic_nvim::{
    compute_highlights, process_file, Change, DiffLine, DifftFile, HighlightRegion, Status,
};

fn regions_of(line: &str, changes: &[Change]) -> Vec<HighlightRegion> {
    compute_highlights(line, changes).as_slice().to_vec()
}

fn span(start: u32, end: u32) -> Change {
    Change {
        start,
        end,
        content: String::new(),
        highlight: String::new(),
    }
}

fn entry(line: u32, changes: Vec<Change>) -> DiffSide {
    DiffSide {
        line_number: line,
        changes,
    }
}

fn region(start: u32, end: i32) -> HighlightRegion {
    HighlightRegion { start, end }
}

fn lines(v: &[&str]) -> Vec<String> {
    v.iter().map(|s| s.to_string()).collect()
}

fn changed_file(aligned: Vec<(Option<u32>, Option<u32>)>, chunks: Vec<Vec<DiffLine>>) -> DifftFile {
    DifftFile {
        path: "f.rs".into(),
        language: "Rust".into(),
        status: Status::Changed,
        aligned_lines: aligned,
        chunks,
    }
}

#[test]
fn pure_addition_scenario() {
    let file = DifftFile {
        path: "a.rs".into(),
        language: "Rust".into(),
        status: Status::Created,
        aligned_lines: vec![],
        chunks: vec![],
    };
    let r = process_file(file, vec![], lines(&["a", "b"]), None);
    assert_eq!(r.rows.len(), 2);
    for row in &r.rows {
        assert!(row.left.is_filler);
        assert_eq!(row.left.content, "");
        assert!(row.left.highlights.is_empty());
        assert!(!row.right.is_filler);
        assert_eq!(row.right.highlights.as_slice(), &[region(0, -1)]);
    }
    assert_eq!(r.rows[1].right.content, "b");
    assert_eq!(r.additions, 2);
    assert_eq!(r.deletions, 0);
    assert_eq!(r.hunk_starts, vec![0]);
    assert_eq!(r.status, Status::Created);
    assert_eq!(r.language, "Rust");
}

#[test]
fn pure_deletion_scenario() {
    let file = DifftFile {
        path: "d.rs".into(),
        language: "Rust".into(),
        status: Status::Deleted,
        aligned_lines: vec![],
        chunks: vec![],
    };
    let r = process_file(file, lines(&["x", "y", "z"]), vec![], None);
    assert_eq!(r.rows.len(), 3);
    assert!(r.rows.iter().all(|row| row.right.is_filler && !row.left.is_filler));
    assert_eq!(r.rows[2].left.content, "z");
    assert_eq!(r.rows[2].left.highlights.as_slice(), &[region(0, -1)]);
    assert_eq!((r.additions, r.deletions), (0, 3));
    assert_eq!(r.hunk_starts, vec![0]);
}

#[test]
fn empty_created_file_has_no_hunks() {
    let file = DifftFile {
        path: "e.rs".into(),
        language: "Rust".into(),
        status: Status::Created,
        aligned_lines: vec![],
        chunks: vec![],
    };
    let r = process_file(file, vec![], vec![], None);
    assert!(r.rows.is_empty());
    assert!(r.hunk_starts.is_empty());
    assert_eq!(r.additions, 0);
}

#[test]
fn aligned_modification_scenario() {
    let file = changed_file(
        vec![(Some(0), Some(0)), (Some(1), Some(1))],
        vec![vec![DiffLine {
            lhs: Some(entry(1, vec![span(0, 3)])),
            rhs: Some(entry(1, vec![span(0, 6)])),
        }]],
    );
    let r = process_file(file, lines(&["x", "foo"]), lines(&["x", "foobar"]), None);
    assert_eq!(r.rows.len(), 2);
    assert!(r.rows[0].left.highlights.is_empty());
    assert!(r.rows[0].right.highlights.is_empty());
    assert!(!r.rows[1].left.highlights.is_empty());
    assert!(!r.rows[1].right.highlights.is_empty());
    assert_eq!(r.hunk_starts, vec![1]);
    assert_eq!((r.additions, r.deletions), (1, 1));
}

#[test]
fn filler_insertion_scenario() {
    let new_lines = lines(&["one", "added", "two"]);
    let file = changed_file(
        vec![(Some(0), Some(0)), (None, Some(1)), (Some(1), Some(2))],
        vec![vec![DiffLine {
            lhs: None,
            rhs: Some(entry(1, vec![span(0, 5)])),
        }]],
    );
    let r = process_file(file, lines(&["one", "two"]), new_lines.clone(), None);
    assert_eq!(r.rows.len(), 3);
    assert!(r.rows[1].left.is_filler);
    assert_eq!(r.rows[1].left.content, "");
    assert_eq!(r.rows[1].right.content, new_lines[1]);
    assert_eq!(r.rows[1].right.highlights.as_slice(), &[region(0, -1)]);
    assert_eq!(r.rows[2].left.content, "two");
    assert_eq!(r.hunk_starts, vec![1]);
}

#[test]
fn rows_follow_the_alignment_and_never_pair_two_fillers() {
    let plan = vec![
        (Some(0), None),
        (None, Some(0)),
        (Some(1), Some(1)),
        (Some(2), None),
    ];
    let file = changed_file(plan.clone(), vec![]);
    let r = process_file(file, lines(&["a", "b", "c"]), lines(&["A", "b"]), None);
    assert_eq!(r.rows.len(), plan.len());
    for row in &r.rows {
        assert!(!(row.left.is_filler && row.right.is_filler));
    }
    assert_eq!(r.hunk_starts, vec![0, 3]);
}

#[test]
fn unchanged_plan_has_no_hunks() {
    let file = changed_file(vec![(Some(0), Some(0)), (Some(1), Some(1))], vec![]);
    let r = process_file(file, lines(&["a", "b"]), lines(&["a", "b"]), None);
    assert!(r.hunk_starts.is_empty());
    assert_eq!((r.additions, r.deletions), (0, 0));
}

#[test]
fn hunk_starts_increase_and_are_row_indices() {
    let plan = vec![
        (None, Some(0)),
        (Some(0), Some(1)),
        (Some(1), None),
        (Some(2), None),
        (Some(3), Some(2)),
        (None, Some(3)),
    ];
    let file = changed_file(plan, vec![]);
    let r = process_file(
        file,
        lines(&["a", "b", "c", "d"]),
        lines(&["n", "a", "d", "m"]),
        None,
    );
    assert_eq!(r.hunk_starts, vec![0, 2, 5]);
    assert!(r.hunk_starts.windows(2).all(|w| w[0] < w[1]));
    assert!(r.hunk_starts.iter().all(|&h| (h as usize) < r.rows.len()));
}

#[test]
fn out_of_range_line_reads_as_empty() {
    let file = changed_file(
        vec![(Some(5), Some(0))],
        vec![vec![DiffLine {
            lhs: Some(entry(5, vec![span(0, 4)])),
            rhs: None,
        }]],
    );
    let r = process_file(file, lines(&["a"]), lines(&["a"]), None);
    assert_eq!(r.rows[0].left.content, "");
    assert!(!r.rows[0].left.is_filler);
    assert_eq!(r.rows[0].left.highlights.as_slice(), &[region(0, -1)]);
    assert_eq!(r.hunk_starts, vec![0]);
}

#[test]
fn later_entry_for_a_line_wins() {
    let file = changed_file(
        vec![(Some(0), Some(0))],
        vec![
            vec![DiffLine {
                lhs: Some(entry(0, vec![span(0, 1)])),
                rhs: None,
            }],
            vec![DiffLine {
                lhs: Some(entry(0, vec![])),
                rhs: None,
            }],
        ],
    );
    let r = process_file(file, lines(&["abc"]), lines(&["abc"]), None);
    assert!(r.rows[0].left.highlights.is_empty());
    assert!(r.hunk_starts.is_empty());
    assert_eq!((r.additions, r.deletions), (0, 1));
}

#[test]
fn external_stats_take_precedence() {
    let file = changed_file(
        vec![(Some(0), Some(0))],
        vec![vec![DiffLine {
            lhs: Some(entry(0, vec![span(0, 1)])),
            rhs: Some(entry(0, vec![span(0, 1)])),
        }]],
    );
    let r = process_file(file, lines(&["a"]), lines(&["b"]), Some((12, 34)));
    assert_eq!((r.additions, r.deletions), (12, 34));

    let created = DifftFile {
        path: "c.rs".into(),
        language: "Rust".into(),
        status: Status::Created,
        aligned_lines: vec![],
        chunks: vec![],
    };
    let r = process_file(created, vec![], lines(&["a"]), Some((9, 0)));
    assert_eq!((r.additions, r.deletions), (9, 0));
}

#[test]
fn full_span_collapses_to_full_line() {
    assert_eq!(regions_of("hello", &[span(0, 5)]), vec![region(0, -1)]);
    assert_eq!(regions_of("hello", &[span(0, 9)]), vec![region(0, -1)]);
    assert_eq!(regions_of("", &[span(0, 0)]), vec![region(0, -1)]);
    assert_eq!(regions_of("héllo", &[span(0, 6)]), vec![region(0, -1)]);
}

#[test]
fn whitespace_gap_merges_and_other_gaps_do_not() {
    assert_eq!(
        regions_of("foo bar", &[span(0, 3), span(4, 7)]),
        vec![region(0, -1)]
    );
    assert_eq!(
        regions_of("foo.bar", &[span(0, 3), span(4, 7)]),
        vec![region(0, 3), region(4, 7)]
    );
    assert_eq!(
        regions_of("ab \t cd ef", &[span(0, 2), span(5, 7)]),
        vec![region(0, 7)]
    );
}

#[test]
fn covering_every_word_collapses_whatever_the_number_of_changes() {
    assert_eq!(
        regions_of("  a b  c ", &[span(2, 3), span(4, 5), span(7, 8)]),
        vec![region(0, -1)]
    );
}

#[test]
fn changes_are_ordered_by_start() {
    assert_eq!(
        regions_of("ab cd ef", &[span(6, 8), span(0, 2)]),
        vec![region(0, 2), region(6, 8)]
    );
}

#[test]
fn overlapping_changes_merge() {
    assert_eq!(
        regions_of("abcdefgh", &[span(1, 4), span(2, 6), span(5, 6)]),
        vec![region(1, 6)]
    );
}

#[test]
fn gap_past_the_line_end_does_not_merge() {
    assert_eq!(
        regions_of("ab", &[span(0, 1), span(5, 6)]),
        vec![region(0, 1), region(5, 6)]
    );
}

#[test]
fn multibyte_offsets_are_bytes() {
    // 'é' takes two bytes: the last 'l' starts at byte 4, 'o' at byte 5.
    assert_eq!(
        regions_of("héllo", &[span(0, 5)]),
        vec![region(0, 5)]
    );
    assert_eq!(
        regions_of("héllo", &[span(0, 3), span(3, 6)]),
        vec![region(0, -1)]
    );
}

#[test]
fn unicode_whitespace_need_not_be_covered() {
    // U+3000 is whitespace but not ASCII: the gap does not merge, yet both
    // visible characters are covered, so the line reads as changed whole.
    assert_eq!(
        regions_of("a\u{3000}b", &[span(0, 1), span(4, 5)]),
        vec![region(0, -1)]
    );
}

#[test]
fn whitespace_only_line_is_never_full() {
    assert_eq!(
        regions_of("   ", &[span(0, 1), span(2, 3)]),
        vec![region(0, 3)]
    );
}

#[test]
fn region_constructors() {
    assert_eq!(HighlightRegion::full_line(), region(0, -1));
    assert!(HighlightRegion::full_line().is_full_line());
    assert_eq!(HighlightRegion::columns(2, 9), region(2, 9));
    assert!(!HighlightRegion::columns(2, 9).is_full_line());
    assert_eq!(HighlightRegion::columns(1, u32::MAX), region(1, i32::MAX));
}

#[test]
fn merge_regions_bridges_blank_gaps_only() {
    let merged = merge_regions(&[(0, 3), (4, 7), (8, 9)], b"foo bar.x");
    assert_eq!(merged.as_slice(), &[(0, 7), (8, 9)]);
    let merged = merge_regions(&[], b"abc");
    assert_eq!(merged.len(), 0);
}

#[test]
fn sorted_spans_keep_order_of_equal_starts() {
    let sorted = sorted_spans(&[span(5, 6), span(1, 4), span(5, 9), span(0, 1)]);
    assert_eq!(sorted.as_slice(), &[(0, 1), (1, 4), (5, 6), (5, 9)]);
}

#[test]
fn nonblank_offsets_are_byte_offsets() {
    assert_eq!(nonblank_offsets(" é x"), vec![1, 4]);
    assert_eq!(nonblank_offsets("   "), Vec::<usize>::new());
}

#[test]
fn covers_offsets_needs_some_offset() {
    assert!(covers_offsets(&[0, 4], &[(0, 1), (4, 5)]));
    assert!(!covers_offsets(&[0, 4], &[(0, 1)]));
    assert!(!covers_offsets(&[], &[(0, 1)]));
}

#[test]
fn lines_listed_without_changes_open_no_hunk() {
    let file = changed_file(
        vec![(Some(0), Some(0)), (Some(1), Some(1))],
        vec![vec![DiffLine {
            lhs: Some(entry(1, vec![])),
            rhs: Some(entry(1, vec![])),
        }]],
    );
    let r = process_file(file, lines(&["a", "b"]), lines(&["a", "c"]), None);
    assert!(r.hunk_starts.is_empty());
    assert!(r
        .rows
        .iter()
        .all(|row| row.left.highlights.is_empty() && row.right.highlights.is_empty()));
}

#[test]
fn highlights_get_reads_by_index() {
    let h = compute_highlights("foo.bar", &[span(0, 3), span(4, 7)]);
    assert_eq!(*h.get(1), region(4, 7));
    assert_eq!(h.len(), 2);
}
