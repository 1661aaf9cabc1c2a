use bloat::arena::Arena;
use bloat::scan::{clean, glob_match, is_excluded, take_entry, Inodes, Taken};

#[test]
fn globs() {
    assert!(glob_match("*.iso", "ubuntu.iso"));
    assert!(glob_match("node_modules", "node_modules"));
    assert!(glob_match("ca?he", "cache"));
    assert!(!glob_match("*.iso", "ubuntu.zip"));
    assert!(!glob_match("node_modules", "node_modules2"));
}

#[test]
fn glob_corner_cases() {
    assert!(glob_match("*", ""));
    assert!(glob_match("a*b*c", "axxbyyc"));
    assert!(!glob_match("a*b*c", "axxbyy"));
    assert!(glob_match("**x", "x"));
    assert!(!glob_match("?", ""));
}

#[test]
fn excludes() {
    let p = vec!["*.iso".to_string(), "/var/cache".to_string()];
    assert!(is_excluded("/home/x/Fedora.iso", "Fedora.iso", &p));
    assert!(is_excluded("/var/cache/apt", "apt", &p));
    assert!(is_excluded("/proc/1", "1", &[]));
    assert!(!is_excluded("/home/x/a.txt", "a.txt", &p));
}

#[test]
fn absolute_patterns_are_path_prefixes() {
    let p = vec!["/var/cache/".to_string()];
    assert!(is_excluded("/var/cache", "cache", &p));
    assert!(!is_excluded("/var/cached", "cached", &p));
    assert!(is_excluded("/sys", "sys", &[]));
    assert!(is_excluded("/run/user/1000", "1000", &[]));
    assert!(!is_excluded("/devices", "devices", &[]));
}

#[test]
fn clean_keeps_short_paths() {
    assert_eq!(clean("/home/x"), "/home/x");
    let long = format!("/{}", "a".repeat(200));
    let c = clean(&long);
    assert!(c.chars().count() <= 90);
    assert!(c.starts_with('…'));
    assert!(long.ends_with(&c[c.char_indices().nth(1).unwrap().0..]));
}

#[test]
fn an_inode_counts_once() {
    let mut seen = Inodes::new();
    assert!(seen.first_sight(1, 42));
    assert!(!seen.first_sight(1, 42));
    assert!(seen.first_sight(2, 42));
    assert!(seen.first_sight(1, 43));
    assert!(seen.first_sight(u64::MAX, u64::MAX));
    assert!(!seen.first_sight(u64::MAX, u64::MAX));
}

#[test]
fn hardlinked_inode_counts_once() {
    let mut a = Arena::new_root("/r".into());
    let mut stack: Vec<u32> = vec![0];
    let mut links = Inodes::new();
    assert_eq!(take_entry(&mut a, &mut stack, &mut links, 0, "r".into(), true, 3, 1, 1, 4096, 0), Taken::RootBytes);
    assert_eq!(take_entry(&mut a, &mut stack, &mut links, 1, "d".into(), true, 2, 1, 2, 4096, 0), Taken::Added(1));
    assert_eq!(take_entry(&mut a, &mut stack, &mut links, 2, "x".into(), false, 2, 1, 7, 100, 0), Taken::Added(2));
    // a second name of the same inode adds nothing
    assert_eq!(take_entry(&mut a, &mut stack, &mut links, 2, "y".into(), false, 2, 1, 7, 100, 0), Taken::Repeat);
    assert_eq!(a.nodes.len(), 3);
    assert_eq!(a.nodes[0].size, 4096 + 4096 + 100);
    assert_eq!(a.nodes[1].size, 4096 + 100);
    // the same inode number on another device is another file
    assert_eq!(take_entry(&mut a, &mut stack, &mut links, 1, "z".into(), false, 2, 2, 7, 50, 0), Taken::Added(3));
    assert_eq!(a.nodes[3].parent, Some(0));
    // a file with one name is never looked up
    assert_eq!(take_entry(&mut a, &mut stack, &mut links, 1, "w".into(), false, 1, 1, 7, 10, 0), Taken::Added(4));
    assert_eq!(a.nodes[0].size, 4096 + 4096 + 100 + 50 + 10);
    assert_eq!(a.nodes[0].files, 3);
}

#[test]
fn stars_in_names_are_plain_characters() {
    assert!(glob_match("*b", "*ab"));
    assert!(glob_match("*", "*"));
    assert!(glob_match("?b", "*b"));
    assert!(glob_match("a*c", "a*b*c"));
    assert!(!glob_match("*b", "*a"));
}
