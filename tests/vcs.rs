use difftastic_nvim::vcs::{
    commit_id, parse_decimal, parse_numstat, parse_numstat_line, stats_range, trim_whitespace,
};

#[test]
fn parse_decimal_reads_u32() {
    assert_eq!(parse_decimal("0"), Some(0));
    assert_eq!(parse_decimal("42"), Some(42));
    assert_eq!(parse_decimal("+7"), Some(7));
    assert_eq!(parse_decimal("4294967295"), Some(u32::MAX));
}

#[test]
fn parse_decimal_rejects_non_numbers() {
    assert_eq!(parse_decimal(""), None);
    assert_eq!(parse_decimal("+"), None);
    assert_eq!(parse_decimal("-"), None);
    assert_eq!(parse_decimal("-1"), None);
    assert_eq!(parse_decimal("12a"), None);
    assert_eq!(parse_decimal("4294967296"), None);
    assert_eq!(parse_decimal("99999999999"), None);
}

#[test]
fn numstat_line_fields() {
    assert_eq!(
        parse_numstat_line("3\t1\tsrc/lib.rs"),
        Some(("src/lib.rs".to_string(), 3, 1))
    );
    assert_eq!(parse_numstat_line("-\t-\timage.png"), None);
    assert_eq!(parse_numstat_line("3\t1"), None);
}

#[test]
fn numstat_output() {
    let entries = parse_numstat("10\t2\ta.rs\n-\t-\tb.png\n\n0\t5\tdir/c.rs\n");
    assert_eq!(
        entries,
        vec![
            ("a.rs".to_string(), 10, 2),
            ("dir/c.rs".to_string(), 0, 5)
        ]
    );
}

#[test]
fn trim_whitespace_both_ends() {
    assert_eq!(trim_whitespace("  abc \n"), "abc");
    assert_eq!(trim_whitespace(" \t "), "");
    assert_eq!(trim_whitespace("a b"), "a b");
}

#[test]
fn commit_id_accepts_forty_hex_digits() {
    let id = "0123456789abcdef0123456789ABCDEF01234567";
    assert_eq!(commit_id(&format!("{id}\n")), Some(id.to_string()));
}

#[test]
fn commit_id_rejects_other_output() {
    assert_eq!(commit_id("abc123\n"), None);
    assert_eq!(commit_id("0123456789abcdef0123456789abcdef0123456g"), None);
    assert_eq!(commit_id(""), None);
}

#[test]
fn stats_range_forms() {
    assert_eq!(
        stats_range(Some("aaa".to_string()), Some("bbb".to_string())),
        Some("aaa..bbb".to_string())
    );
    assert_eq!(
        stats_range(None, Some("bbb".to_string())),
        Some("bbb^..bbb".to_string())
    );
    assert_eq!(stats_range(Some("aaa".to_string()), None), None);
    assert_eq!(stats_range(None, None), None);
}
