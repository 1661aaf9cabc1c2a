use bloat::civil::{civil_from_days, date_stamp};
use bloat::version::{enrich_from, github_slug, json_string, numeric_token, parse_ls_remote, Local, Remote, REPO};

#[test]
fn parses_ls_remote() {
    let text = "ref: refs/heads/main\tHEAD\n6eb6784305cb131f95eacc202447bf876b6d1b77\tHEAD\n";
    let remote = parse_ls_remote(text).unwrap();
    assert_eq!(remote.branch, "main");
    assert_eq!(remote.short, "6eb6784");
    assert_eq!(remote.hash.len(), 40);
}

#[test]
fn parses_ls_remote_without_symref_line() {
    let text = "abcdef1234567890\tHEAD\n";
    let remote = parse_ls_remote(text).unwrap();
    assert_eq!(remote.branch, "default");
    assert_eq!(remote.short, "abcdef1");
}

#[test]
fn rejects_garbage() {
    assert!(parse_ls_remote("").is_none());
    assert!(parse_ls_remote("huh\n").is_none());
}

#[test]
fn ls_remote_lines_in_detail() {
    let text = "ref: refs/heads/feature/x\tHEAD\r\n  abc  \t HEAD \r\nfff\tmain\n";
    let remote = parse_ls_remote(text).unwrap();
    assert_eq!(remote.branch, "x");
    assert_eq!(remote.hash, "abc");
    assert_eq!(remote.short, "abc");
    assert!(remote.date.is_none() && remote.subject.is_none());
    assert!(parse_ls_remote("ref: refs/heads/main\tHEAD\n").is_none());
}

#[test]
fn reads_json_fields() {
    let json = r#"{"sha":"abc","commit":{"author":{"name":"x","date":"2026-09-22T10:00:00Z"},"message":"fix: labels\n\nbody"}}"#;
    assert_eq!(json_string(json, "\"date\":").as_deref(), Some("2026-09-22T10:00:00Z"));
    let message = json_string(json, "\"message\":").unwrap();
    assert_eq!(message.lines().next(), Some("fix: labels"));
    assert_eq!(numeric_token("cargo 1.98.1 (797e8a9bc 2026-08-05)").as_deref(), Some("1.98.1"));
    assert_eq!(numeric_token("git version 2.43.0").as_deref(), Some("2.43.0"));
    assert_eq!(numeric_token("curl 8.5.0 (x86_64)").as_deref(), Some("8.5.0"));
}

#[test]
fn json_edge_cases() {
    assert_eq!(json_string(r#"{"a": " x\ty\"z "}"#, "\"a\""), Some("x y\"z".to_string()));
    assert_eq!(json_string(r#"{"a": :  "x"}"#, "\"a\""), None);
    assert_eq!(json_string(r#"{"a":::"x"}"#, "\"a\""), Some("x".to_string()));
    assert_eq!(json_string(r#"{"a": 5}"#, "\"a\""), None);
    assert_eq!(json_string(r#"{"a": "open"#, "\"a\""), None);
    assert_eq!(json_string(r#"{"b": "x"}"#, "\"a\""), None);
    assert_eq!(numeric_token("no digits here"), None);
    assert_eq!(numeric_token(""), None);
}

#[test]
fn repo_slug() {
    assert_eq!(github_slug(REPO).as_deref(), Some("BananaBites/bloat"));
}

#[test]
fn slug_variants() {
    assert_eq!(github_slug("git@github.com:you/bloat.git").as_deref(), Some("you/bloat"));
    assert_eq!(github_slug("https://github.com/you/bloat/").as_deref(), Some("you/bloat"));
    assert_eq!(github_slug("file:///tmp/fork.git"), None);
    assert_eq!(github_slug("https://github.com/you"), None);
}

fn remote() -> Remote {
    Remote {
        hash: "a".repeat(40),
        short: "aaaaaaa".into(),
        branch: "main".into(),
        date: None,
        subject: None,
    }
}

#[test]
fn commit_details_from_api() {
    let mut r = remote();
    let json = r#"{"commit":{"author":{"date":"2026-09-23T08:00:00Z"},"message":"labels: keep sizes readable\r\n\nmore"}}"#;
    enrich_from(&mut r, json);
    assert_eq!(r.date.as_deref(), Some("2026-09-23T08:00:00Z"));
    // an escaped `\r` reads as a space, so it stays on the first line
    assert_eq!(r.subject.as_deref(), Some("labels: keep sizes readable "));
    let mut r = remote();
    enrich_from(&mut r, r#"{"date":"yesterday"}"#);
    assert_eq!(r.date, None);
    assert_eq!(r.subject, None);
}

#[test]
fn stamps() {
    let local = Local {
        version: "0.1.0".into(),
        hash: "6eb6784305cb131f95eacc202447bf876b6d1b77".into(),
        short: "6eb6784".into(),
        reference: "main".into(),
        dirty: true,
        date: "2026-09-22".into(),
        profile: "release".into(),
        target: "x86_64-unknown-linux-gnu".into(),
        binary: std::path::PathBuf::from("/usr/bin/bloat"),
    };
    assert_eq!(local.stamp(), "v0.1.0 @ 6eb6784+dirty");
    assert!(!local.is_unknown());
    assert_eq!(local.branch_label(), Some("main"));
    assert_eq!(remote().stamp(), "@ aaaaaaa");
}

#[test]
fn unknown_builds() {
    let local = Local {
        version: "0.1.0".into(),
        hash: "unknown".into(),
        short: "unknown".into(),
        reference: "HEAD".into(),
        dirty: false,
        date: String::new(),
        profile: "debug".into(),
        target: String::new(),
        binary: std::path::PathBuf::new(),
    };
    assert!(local.is_unknown());
    assert_eq!(local.branch_label(), None);
    assert_eq!(local.stamp(), "v0.1.0 @ unknown");
}

#[test]
fn civil_dates() {
    assert_eq!(civil_from_days(0), (1970, 1, 1));
    assert_eq!(civil_from_days(20_000), (2024, 10, 4));
}

#[test]
fn calendar_edges() {
    assert_eq!(civil_from_days(-1), (1969, 12, 31));
    assert_eq!(civil_from_days(11_016), (2000, 2, 29));
    assert_eq!(civil_from_days(-719_468), (0, 3, 1));
    assert_eq!(date_stamp(0), "1970-01-01");
    assert_eq!(date_stamp(-1), "1969-12-31");
    assert_eq!(date_stamp(20_000 * 86_400 + 86_399), "2024-10-04");
    assert_eq!(date_stamp(-719_469 * 86_400), "0000-02-29");
    assert_eq!(date_stamp((-719_468 - 366) * 86_400), "-001-03-01");
}

#[test]
fn consecutive_days_are_consecutive_dates() {
    let month_len = |y: i64, m: u32| -> u32 {
        match m {
            2 if y % 4 == 0 && (y % 100 != 0 || y % 400 == 0) => 29,
            2 => 28,
            4 | 6 | 9 | 11 => 30,
            _ => 31,
        }
    };
    let mut prev = civil_from_days(-150_000);
    for day in -149_999..150_000i64 {
        let (y, m, d) = civil_from_days(day);
        let (py, pm, pd) = prev;
        let expected = if pd < month_len(py, pm) {
            (py, pm, pd + 1)
        } else if pm < 12 {
            (py, pm + 1, 1)
        } else {
            (py + 1, 1, 1)
        };
        assert_eq!((y, m, d), expected, "day {day}");
        prev = (y, m, d);
    }
}
