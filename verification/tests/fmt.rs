use bloat::fmt::{age_at, group, human, truncate, truncate_start, width};

#[test]
fn humans() {
    assert_eq!(human(0), "0B");
    assert_eq!(human(813), "813B");
    assert_eq!(human(4096), "4.0K");
    assert_eq!(human(1024 * 1024 * 3 / 2), "1.5M");
    assert_eq!(human(13 * 1024 * 1024 * 1024), "13G");
}

#[test]
fn human_edges() {
    assert_eq!(human(1023), "1023B");
    assert_eq!(human(1024), "1.0K");
    assert_eq!(human(10 * 1024), "10K");
    assert_eq!(human(1024 * 1024 * 1024 * 1024), "1.0T");
}

#[test]
fn groups() {
    assert_eq!(group(0), "0");
    assert_eq!(group(999), "999");
    assert_eq!(group(1000), "1,000");
    assert_eq!(group(1234567), "1,234,567");
}

#[test]
fn group_of_max() {
    assert_eq!(group(u64::MAX), "18,446,744,073,709,551,615");
}

#[test]
fn truncation() {
    assert_eq!(truncate("abcdef", 10), "abcdef");
    assert_eq!(truncate("abcdef", 4), "abc…");
    assert_eq!(truncate_start("/a/b/c/verylong", 8), "…erylong");
    assert!(width(&truncate_start("/a/b/c/verylong", 8)) <= 8);
    assert_eq!(truncate_start("/a/b/c/verylong", 8), "…erylong");
    assert_eq!(width("abc"), 3);
    assert_eq!(width("日本"), 4);
}

#[test]
fn truncation_of_wide_text() {
    assert_eq!(truncate("日本語テキスト", 5), "日本…");
    assert!(width(&truncate("日本語テキスト", 5)) <= 5);
    assert_eq!(truncate("abc", 0), "");
}

#[test]
fn ages() {
    assert_eq!(age_at(0, 1000), "-");
    assert_eq!(age_at(1000, 1030), "now");
    assert_eq!(age_at(1000, 1000 + 5 * 60), "5m");
    assert_eq!(age_at(1000, 1000 + 3 * 3600), "3h");
    assert_eq!(age_at(1000, 1000 + 3 * 86400), "3d");
    assert_eq!(age_at(1000, 1000 + 90 * 86400), "3 months");
    assert_eq!(age_at(1000, 1000 + 150 * 86400), "5 months");
    assert_eq!(age_at(1000, 1000 + 800 * 86400), "2y");
    assert_eq!(age_at(2000, 1000), "now");
}

#[test]
fn sizes_are_read_as_doubles() {
    // 9288674231451649 is 8.25 P plus one byte; as a double it is 8.25 P
    // exactly, and the tie goes to the even digit
    assert_eq!(human(9288674231451649), "8.2P");
    assert_eq!(human(9288674231451649), format!("{:.1}P", 9288674231451649u64 as f64 / 1125899906842624.0));
    assert_eq!(human(u64::MAX), "16384P");
    assert_eq!(human(u64::MAX), format!("{:.0}P", u64::MAX as f64 / 1125899906842624.0));
}

#[test]
fn the_ellipsis_takes_one_column() {
    assert_eq!(width("…"), 1);
    assert_eq!(width("…erylong"), 8);
    assert_eq!(width("abc…"), 4);
    assert_eq!(unicode_width::UnicodeWidthChar::width('…'), Some(1));
    assert_eq!(truncate("abcdef", 4), "abc…");
    assert_eq!(width(&truncate("abcdef", 4)), 4);
    assert_eq!(truncate_start("/a/b/c/verylong", 8), "…erylong");
    assert!(width(&truncate_start("/a/b/c/verylong", 8)) <= 8);
}
