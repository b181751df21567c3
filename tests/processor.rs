use difftastic_nvim::difftastic::Side as DiffSide;
use difftastic_nvim::{process_file, Change, DiffLine, DifftFile, Status};

fn change(start: u32, end: u32) -> Change {
    Change {
        start,
        end,
        content: String::new(),
        highlight: String::new(),
    }
}

fn diff_side(line: u32, changes: Vec<Change>) -> DiffSide {
    DiffSide {
        line_number: line,
        changes,
    }
}

#[test]
fn created_file_all_additions() {
    let file = DifftFile {
        path: "new.rs".into(),
        language: "Rust".into(),
        status: Status::Created,
        aligned_lines: vec![],
        chunks: vec![],
    };
    let result = process_file(file, vec![], vec!["a".into(), "b".into()], None);

    assert_eq!(result.rows.len(), 2);
    assert!(result.rows[0].left.is_filler);
    assert_eq!(result.rows[0].right.content, "a");
    assert!(!result.rows[0].right.is_filler);
    assert_eq!(result.rows[0].right.highlights.len(), 1);
    assert_eq!(result.rows[0].right.highlights.as_slice()[0].end, -1);
    assert_eq!(result.additions, 2);
    assert_eq!(result.deletions, 0);
}

#[test]
fn deleted_file_all_deletions() {
    let file = DifftFile {
        path: "old.rs".into(),
        language: "Rust".into(),
        status: Status::Deleted,
        aligned_lines: vec![],
        chunks: vec![],
    };
    let result = process_file(file, vec!["x".into(), "y".into()], vec![], None);

    assert_eq!(result.rows.len(), 2);
    assert_eq!(result.rows[0].left.content, "x");
    assert!(!result.rows[0].left.is_filler);
    assert!(result.rows[0].right.is_filler);
    assert_eq!(result.additions, 0);
    assert_eq!(result.deletions, 2);
}

#[test]
fn modification_with_aligned_lines() {
    let file = DifftFile {
        path: "mod.rs".into(),
        language: "Rust".into(),
        status: Status::Changed,
        aligned_lines: vec![(Some(0), Some(0)), (Some(1), Some(1)), (Some(2), Some(2))],
        chunks: vec![vec![DiffLine {
            lhs: Some(diff_side(1, vec![change(0, 3)])),
            rhs: Some(diff_side(1, vec![change(0, 6)])),
        }]],
    };
    let result = process_file(
        file,
        vec!["line1".into(), "foo".into(), "line3".into()],
        vec!["line1".into(), "foobar".into(), "line3".into()],
        None,
    );

    assert_eq!(result.rows.len(), 3);
    assert_eq!(result.rows[1].left.content, "foo");
    assert_eq!(result.rows[1].right.content, "foobar");
    assert!(!result.rows[1].left.highlights.is_empty());
    assert!(!result.rows[1].right.highlights.is_empty());
}

#[test]
fn addition_with_filler_line() {
    let file = DifftFile {
        path: "add.rs".into(),
        language: "Rust".into(),
        status: Status::Changed,
        aligned_lines: vec![(Some(0), Some(0)), (None, Some(1)), (Some(1), Some(2))],
        chunks: vec![vec![DiffLine {
            lhs: None,
            rhs: Some(diff_side(1, vec![change(0, 8)])),
        }]],
    };
    let result = process_file(
        file,
        vec!["line 1".into(), "line 3".into()],
        vec!["line 1".into(), "new line".into(), "line 3".into()],
        None,
    );

    assert_eq!(result.rows.len(), 3);
    assert!(result.rows[1].left.is_filler);
    assert_eq!(result.rows[1].left.content, "");
    assert_eq!(result.rows[1].right.content, "new line");
    assert!(!result.rows[1].right.is_filler);
}

#[test]
fn deletion_with_filler_line() {
    let file = DifftFile {
        path: "del.rs".into(),
        language: "Rust".into(),
        status: Status::Changed,
        aligned_lines: vec![(Some(0), Some(0)), (Some(1), None), (Some(2), Some(1))],
        chunks: vec![vec![DiffLine {
            lhs: Some(diff_side(1, vec![change(0, 7)])),
            rhs: None,
        }]],
    };
    let result = process_file(
        file,
        vec!["line 1".into(), "deleted".into(), "line 3".into()],
        vec!["line 1".into(), "line 3".into()],
        None,
    );

    assert_eq!(result.rows.len(), 3);
    assert_eq!(result.rows[1].left.content, "deleted");
    assert!(!result.rows[1].left.is_filler);
    assert!(result.rows[1].right.is_filler);
}

#[test]
fn expansion_multiline_to_single() {
    let file = DifftFile {
        path: "expand.rs".into(),
        language: "Rust".into(),
        status: Status::Changed,
        aligned_lines: vec![
            (Some(0), Some(0)),
            (None, Some(1)),
            (None, Some(2)),
            (None, Some(3)),
            (None, Some(4)),
        ],
        chunks: vec![vec![
            DiffLine {
                lhs: Some(diff_side(0, vec![change(0, 16)])),
                rhs: Some(diff_side(0, vec![change(0, 6)])),
            },
            DiffLine {
                lhs: None,
                rhs: Some(diff_side(1, vec![change(0, 6)])),
            },
            DiffLine {
                lhs: None,
                rhs: Some(diff_side(2, vec![change(0, 6)])),
            },
            DiffLine {
                lhs: None,
                rhs: Some(diff_side(3, vec![change(0, 6)])),
            },
            DiffLine {
                lhs: None,
                rhs: Some(diff_side(4, vec![change(0, 1)])),
            },
        ]],
    };

    let old_lines = vec!["Self { a, b, c }".into()];
    let new_lines = vec![
        "Self {".into(),
        "    a,".into(),
        "    b,".into(),
        "    c,".into(),
        "}".into(),
    ];

    let result = process_file(file, old_lines, new_lines, None);

    assert_eq!(result.rows.len(), 5);
    assert_eq!(result.rows[0].left.content, "Self { a, b, c }");
    assert_eq!(result.rows[0].right.content, "Self {");
    assert!(result.rows[1].left.is_filler);
    assert_eq!(result.rows[1].right.content, "    a,");
}

#[test]
fn contraction_single_to_multiline() {
    let file = DifftFile {
        path: "contract.rs".into(),
        language: "Rust".into(),
        status: Status::Changed,
        aligned_lines: vec![
            (Some(0), None),
            (Some(1), None),
            (Some(2), None),
            (Some(3), Some(0)),
            (Some(4), None),
        ],
        chunks: vec![vec![
            DiffLine {
                lhs: Some(diff_side(0, vec![change(0, 6)])),
                rhs: None,
            },
            DiffLine {
                lhs: Some(diff_side(1, vec![change(0, 6)])),
                rhs: None,
            },
            DiffLine {
                lhs: Some(diff_side(2, vec![change(0, 6)])),
                rhs: None,
            },
            DiffLine {
                lhs: Some(diff_side(3, vec![change(0, 6)])),
                rhs: Some(diff_side(0, vec![change(0, 16)])),
            },
            DiffLine {
                lhs: Some(diff_side(4, vec![change(0, 1)])),
                rhs: None,
            },
        ]],
    };

    let old_lines = vec![
        "Self {".into(),
        "    a,".into(),
        "    b,".into(),
        "    c,".into(),
        "}".into(),
    ];
    let new_lines = vec!["Self { a, b, c }".into()];

    let result = process_file(file, old_lines, new_lines, None);

    assert_eq!(result.rows.len(), 5);
    assert_eq!(result.rows[0].left.content, "Self {");
    assert!(result.rows[0].right.is_filler);
    assert_eq!(result.rows[3].left.content, "    c,");
    assert_eq!(result.rows[3].right.content, "Self { a, b, c }");
}

#[test]
fn hunk_starts_detected_correctly() {
    let file = DifftFile {
        path: "hunks.rs".into(),
        language: "Rust".into(),
        status: Status::Changed,
        aligned_lines: vec![
            (Some(0), Some(0)),
            (Some(1), Some(1)),
            (Some(2), Some(2)),
            (Some(3), Some(3)),
            (Some(4), Some(4)),
            (None, Some(5)),
        ],
        chunks: vec![
            vec![
                DiffLine {
                    lhs: Some(diff_side(1, vec![change(0, 3)])),
                    rhs: Some(diff_side(1, vec![change(0, 3)])),
                },
                DiffLine {
                    lhs: Some(diff_side(2, vec![change(0, 3)])),
                    rhs: Some(diff_side(2, vec![change(0, 3)])),
                },
            ],
            vec![DiffLine {
                lhs: None,
                rhs: Some(diff_side(5, vec![change(0, 5)])),
            }],
        ],
    };

    let old_lines = vec![
        "aaa".into(),
        "bbb".into(),
        "ccc".into(),
        "ddd".into(),
        "eee".into(),
    ];
    let new_lines = vec![
        "aaa".into(),
        "BBB".into(),
        "CCC".into(),
        "ddd".into(),
        "eee".into(),
        "fff".into(),
    ];

    let result = process_file(file, old_lines, new_lines, None);

    assert_eq!(result.hunk_starts.len(), 2);
    assert_eq!(result.hunk_starts[0], 1);
    assert_eq!(result.hunk_starts[1], 5);
}
