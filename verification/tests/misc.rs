use bloat::maintenance::{
    completion_rows, describe, install_args, locale_line, remote_origin, remote_prefix, remote_status, update_plan,
    Probe, UpdatePlan,
};
use bloat::palette::hash;
use bloat::top::{path_less, TopFiles};
use bloat::version::{Local, Remote};

#[test]
fn fnv_reference_values() {
    assert_eq!(hash(""), 0xcbf2_9ce4_8422_2325);
    assert_eq!(hash("a"), 0xaf63_dc4c_8601_ec8c);
    assert_eq!(hash("/home/x/node_modules"), hash("/home/x/node_modules"));
    assert_ne!(hash("/home/x/node_modules"), hash("/home/x/target"));
}

#[test]
fn doctor_lines() {
    let r = Remote {
        hash: "a".repeat(40),
        short: "aaaaaaa".into(),
        branch: "main".into(),
        date: None,
        subject: None,
    };
    assert_eq!(remote_prefix(&r), "@ aaaaaaa (branch main)");
    assert_eq!(
        remote_origin("https://github.com/BananaBites/bloat", Some("2026-09-23T10:00:00Z")),
        "https://github.com/BananaBites/bloat · 2026-09-23"
    );
    assert_eq!(remote_origin("https://x", None), "https://x");
    assert_eq!(remote_origin("https://x", Some("2026-09-23")), "https://x · 2026-09-23");
    assert_eq!(describe(Some(true), Some("/x"), "~/.bashrc"), "dynamic · snippet in ~/.bashrc");
    assert_eq!(describe(Some(false), Some("/x/bloat"), "~/.bashrc"), "static file · /x/bloat");
    assert_eq!(describe(None, None, "~/.zshrc"), "not installed (see README → Shell completions)");
}

#[test]
fn keeps_the_biggest_files() {
    let mut t = TopFiles::new(3);
    for (s, p) in [(5u64, "e"), (1, "a"), (9, "i"), (3, "c"), (7, "g"), (2, "b")] {
        t.offer_top(s, p.to_string());
    }
    let top = t.top_files(10);
    let sizes: Vec<u64> = top.iter().map(|e| e.0).collect();
    assert_eq!(sizes, vec![9, 7, 5]);
    assert_eq!(top[0].1, "i");
    let two = t.top_files(2);
    assert_eq!(two.len(), 2);
    assert_eq!(two[1].0, 7);
}

#[test]
fn zero_capacity_keeps_nothing() {
    let mut t = TopFiles::new(0);
    t.offer_top(100, "x".into());
    assert!(t.top_files(5).is_empty());
}

#[test]
fn doctor_verdicts() {
    assert_eq!(locale_line("en_GB.UTF-8"), "en_GB.UTF-8 ✓");
    assert_eq!(locale_line("C.utf8"), "C.utf8 ✓");
    assert_eq!(locale_line("C"), "C (no UTF-8?)");
    assert_eq!(locale_line(""), "unset");
    let local = Local {
        version: "0.1.0".into(),
        hash: "6eb6784305cb131f95eacc202447bf876b6d1b77".into(),
        short: "6eb6784".into(),
        reference: "main".into(),
        dirty: false,
        date: "2026-09-22".into(),
        profile: "release".into(),
        target: "x86_64-unknown-linux-gnu".into(),
        binary: std::path::PathBuf::from("/usr/bin/bloat"),
    };
    let mut r = Remote {
        hash: local.hash.clone(),
        short: "6eb6784".into(),
        branch: "main".into(),
        date: None,
        subject: None,
    };
    assert_eq!(remote_status(&local, &r), "up to date");
    r.hash = "9f3a1c2".repeat(5);
    r.short = "9f3a1c2".into();
    assert_eq!(remote_status(&local, &r), "update available: 6eb6784 → 9f3a1c2   (run `bloat update`)");
}

#[test]
fn update_decisions() {
    let local = Local {
        version: "0.1.0".into(),
        hash: "aaaa".into(),
        short: "aaaa".into(),
        reference: "main".into(),
        dirty: false,
        date: String::new(),
        profile: String::new(),
        target: String::new(),
        binary: std::path::PathBuf::new(),
    };
    let same = Remote { hash: "aaaa".into(), short: "aaaa".into(), branch: "main".into(), date: None, subject: None };
    let newer = Remote { hash: "bbbb".into(), short: "bbbb".into(), branch: "main".into(), date: None, subject: None };
    assert_eq!(update_plan(&local, &same, false, false), UpdatePlan::NothingToDo);
    assert_eq!(update_plan(&local, &same, true, false), UpdatePlan::Install);
    assert_eq!(update_plan(&local, &newer, false, true), UpdatePlan::ReportOnly);
    assert_eq!(update_plan(&local, &newer, false, false), UpdatePlan::Install);
    assert_eq!(install_args("https://x", true), vec!["install", "--git", "https://x", "--force", "--locked"]);
    assert_eq!(install_args("https://x", false).len(), 4);
}

#[test]
fn detect_completions_never_panics() {
    let rows = completion_rows(
        Probe { rc_hit: Some(true), found: None },
        Probe { rc_hit: None, found: Some("/usr/share/zsh/vendor-completions/_bloat".into()) },
        Probe { rc_hit: Some(false), found: None },
    );
    assert_eq!(rows.len(), 3);
    for (shell, how) in &rows {
        assert!(["bash", "zsh", "fish"].contains(shell));
        assert!(!how.is_empty());
    }
    assert_eq!(rows[0].1, "dynamic · snippet in ~/.bashrc");
    assert_eq!(rows[1].1, "static file · /usr/share/zsh/vendor-completions/_bloat");
    assert_eq!(rows[2].1, "not installed (see README → Shell completions)");
}

#[test]
fn doctor_output_is_readable() {
    // Build the same lines the command prints, without the network call.
    let local = Local {
        version: "0.1.0".into(),
        hash: "6eb6784305cb131f95eacc202447bf876b6d1b77".into(),
        short: "6eb6784".into(),
        reference: "main".into(),
        dirty: false,
        date: "2026-09-22".into(),
        profile: "release".into(),
        target: "x86_64-unknown-linux-gnu".into(),
        binary: std::path::PathBuf::from("/usr/bin/bloat"),
    };
    assert!(local.stamp().starts_with("v0.1.0 @ "));
    assert!(!locale_line("C.UTF-8").is_empty());
    assert!(remote_prefix(
        &Remote {
            hash: "a".repeat(40),
            short: "aaaaaaa".into(),
            branch: "main".into(),
            date: None,
            subject: None,
        },
    )
    .contains("main"));
}

#[test]
fn top_files_break_ties_by_arrival() {
    // among equal sizes the entry whose path comes first is evicted
    let mut t = TopFiles::new(2);
    t.offer_top(5, "/r/b".into());
    t.offer_top(5, "/r/a".into());
    t.offer_top(3, "/r/c".into());
    t.offer_top(7, "/r/d".into());
    assert_eq!(t.top_files(10), vec![(7, "/r/d".to_string()), (5, "/r/b".to_string())]);
    // equal sizes are listed in the order they were kept
    let mut u = TopFiles::new(3);
    u.offer_top(4, "x".into());
    u.offer_top(9, "y".into());
    u.offer_top(4, "z".into());
    assert_eq!(u.top_files(3), vec![(9, "y".to_string()), (4, "x".to_string()), (4, "z".to_string())]);
}

#[test]
fn paths_compare_part_by_part() {
    assert!(path_less("/r/a/b", "/r/a-b"));
    assert!(!path_less("/r/a-b", "/r/a/b"));
    assert!(path_less("/r/a", "/r/a/b"));
    assert!(path_less("/r/a", "/r/b"));
    assert!(!path_less("/r/a", "/r/a"));
}
