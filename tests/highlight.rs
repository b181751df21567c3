use difftastic_nvim::{compute_highlights, Change};

fn hl_change(start: u32, end: u32) -> Change {
    Change {
        start,
        end,
        content: String::new(),
        highlight: String::new(),
    }
}

#[test]
fn highlight_empty_changes_is_empty() {
    let highlights = compute_highlights("content", &[]);
    assert!(highlights.is_empty());
}

#[test]
fn highlight_full_coverage_is_full_line() {
    let highlights = compute_highlights("hello", &[hl_change(0, 5)]);
    assert_eq!(highlights.as_slice()[0].end, -1);
}

#[test]
fn highlight_partial_coverage() {
    let highlights = compute_highlights("hello world", &[hl_change(0, 5)]);
    assert_eq!(highlights.as_slice()[0].start, 0);
    assert_eq!(highlights.as_slice()[0].end, 5);
}

#[test]
fn highlight_merges_across_whitespace() {
    let highlights = compute_highlights("foo bar", &[hl_change(0, 3), hl_change(4, 7)]);
    assert_eq!(highlights.len(), 1);
    assert_eq!(highlights.as_slice()[0].end, -1);
}

#[test]
fn highlight_no_merge_across_non_whitespace() {
    let highlights = compute_highlights("foo.bar", &[hl_change(0, 3), hl_change(4, 7)]);
    assert_eq!(highlights.len(), 2);
}
