use bloat::app::crumb_chain;
use bloat::arena::Arena;

#[test]
fn propagates_sizes() {
    let mut a = Arena::new_root("/x".into());
    let d = a.add(0, "d".into(), true, 10, 0);
    let f = a.add(d, "f".into(), false, 100, 0);
    a.add(d, "g".into(), false, 1, 0);
    assert_eq!(a.nodes[f as usize].size, 100);
    assert_eq!(a.nodes[d as usize].size, 111);
    assert_eq!(a.nodes[0].size, 111);
    assert_eq!(a.nodes[d as usize].files, 2);
    assert_eq!(a.nodes[0].files, 2);
    assert_eq!(a.path_string(f), "/x/d/f");
}

#[test]
fn aggregates_small_children() {
    let mut a = Arena::new_root("/".into());
    for i in 0..10u64 {
        a.add(0, format!("f{i}"), false, (i + 1) * 10, 0);
    }
    let (top, rest) = a.top_children(0, 3);
    assert_eq!(top.len(), 3);
    assert_eq!(a.nodes[top[0] as usize].size, 100);
    let (rsize, rcount, rfiles) = rest.unwrap();
    assert_eq!(rcount, 7);
    assert_eq!(rfiles, 7);
    assert_eq!(rsize, 10 + 20 + 30 + 40 + 50 + 60 + 70);
}

#[test]
fn crumbs_are_trimmed() {
    let mut a = Arena::new_root("/".into());
    let mut cur = 0;
    for name in ["a", "b", "c", "d", "e", "f", "g"] {
        cur = a.add(cur, name.into(), true, 0, 0);
    }
    let chain = crumb_chain(&a, cur);
    assert_eq!(chain.len(), 6);
    assert_eq!(chain[0].0, "…");
    assert_eq!(chain[1].0, "c");
    assert_eq!(chain.last().unwrap().0, "g");
}

#[test]
fn short_crumb_trail_is_complete() {
    let mut a = Arena::new_root("/r".into());
    let x = a.add(0, "x".into(), true, 0, 0);
    let y = a.add(x, "y".into(), false, 5, 0);
    let chain = crumb_chain(&a, y);
    assert_eq!(
        chain,
        vec![
            ("/r".to_string(), "/r".to_string()),
            ("x".to_string(), "/r/x".to_string()),
            ("y".to_string(), "/r/x/y".to_string()),
        ]
    );
}

#[test]
fn trimmed_crumb_points_at_hidden_level() {
    let mut a = Arena::new_root("/".into());
    let mut cur = 0;
    for name in ["a", "b", "c", "d", "e", "f", "g"] {
        cur = a.add(cur, name.into(), true, 0, 0);
    }
    let chain = crumb_chain(&a, cur);
    // the ellipsis leads to the first of the five levels still shown
    assert_eq!(chain[0].1, chain[1].1);
    assert_eq!(chain[5].1, a.path_string(cur));
}

#[test]
fn directory_holds_own_plus_children() {
    let mut a = Arena::new_root("/".into());
    let d = a.add(0, "d".into(), true, 4096, 0);
    let e = a.add(d, "e".into(), true, 4096, 0);
    a.add(e, "x".into(), false, 7, 0);
    a.add(d, "y".into(), false, 9, 0);
    a.add_root_own(4096);
    for id in 0..a.nodes.len() {
        let n = &a.nodes[id];
        let kids: u64 = n.children.iter().map(|c| a.nodes[*c as usize].size).sum();
        assert_eq!(n.size, n.own + kids);
        let kid_files: u64 = n.children.iter().map(|c| a.nodes[*c as usize].files).sum();
        assert_eq!(n.files, if n.is_dir { 0 } else { 1 } + kid_files);
    }
    let all: u64 = a.nodes.iter().map(|n| n.own).sum();
    assert_eq!(a.nodes[0].size, all);
    assert_eq!(a.nodes[0].size, 4096 * 3 + 16);
}

#[test]
fn top_children_skips_empty_and_keeps_all_when_few() {
    let mut a = Arena::new_root("/".into());
    a.add(0, "zero".into(), false, 0, 0);
    let b = a.add(0, "b".into(), false, 5, 0);
    let c = a.add(0, "c".into(), false, 50, 0);
    let (top, rest) = a.top_children(0, 0);
    assert_eq!(top, vec![c, b]);
    assert!(rest.is_none());
    let (top, rest) = a.top_children(0, 5);
    assert_eq!(top, vec![c, b]);
    assert!(rest.is_none());
}

#[test]
fn basename_is_the_own_name() {
    let mut a = Arena::new_root("/home".into());
    let d = a.add(0, "user".into(), true, 0, 0);
    assert_eq!(a.basename(d), "user");
    assert_eq!(a.basename(0), "/home");
    assert_eq!(a.path_string(0), "/home");
}

#[test]
fn walk_entries_hang_below_the_open_directory() {
    let mut a = Arena::new_root("/r".into());
    let mut stack = vec![0u32];
    let d = a.attach(&mut stack, 1, "d".into(), true, 0, 0);
    let e = a.attach(&mut stack, 2, "e".into(), true, 0, 0);
    let f = a.attach(&mut stack, 3, "f".into(), false, 5, 0);
    let g = a.attach(&mut stack, 2, "g".into(), false, 7, 0);
    let h = a.attach(&mut stack, 1, "h".into(), false, 1, 0);
    assert_eq!(a.nodes[f as usize].parent, Some(e));
    assert_eq!(a.nodes[g as usize].parent, Some(d));
    assert_eq!(a.nodes[h as usize].parent, Some(0));
    assert_eq!(stack, vec![0]);
    assert_eq!(a.nodes[d as usize].size, 12);
    assert_eq!(a.path_string(g), "/r/d/g");
}
