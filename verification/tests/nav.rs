use bloat::app::{hyperlinks_for, osc52, usable_terminal};
use bloat::arena::Arena;
use bloat::labels::Region;
use bloat::nav::{click, key_action, next_region, reselect, step_depth, Action, Click, Dir, Key, Nav, Step};
use bloat::text::parse_u32;
use bloat::treemap::SubRect;

#[test]
fn keys_map_to_actions() {
    assert_eq!(key_action(false, Key::Char('q'), false), Action::Quit);
    assert_eq!(key_action(false, Key::Char('c'), true), Action::Quit);
    assert_eq!(key_action(false, Key::Char('c'), false), Action::Nothing);
    assert_eq!(key_action(false, Key::Char('k'), false), Action::Move(Dir::Up));
    assert_eq!(key_action(false, Key::Right, false), Action::Move(Dir::Right));
    assert_eq!(key_action(false, Key::Backspace, false), Action::GoUp);
    assert_eq!(key_action(false, Key::Enter, false), Action::Descend);
    assert_eq!(key_action(false, Key::Char(']'), false), Action::Deeper);
    assert_eq!(key_action(true, Key::Enter, false), Action::CloseHelp);
    assert_eq!(key_action(true, Key::Char('j'), false), Action::Nothing);
    assert_eq!(key_action(true, Key::Char('q'), false), Action::Quit);
}

#[test]
fn depth_stays_in_range() {
    assert_eq!(step_depth(5, true), 6);
    assert_eq!(step_depth(12, true), 12);
    assert_eq!(step_depth(11, true), 12);
    assert_eq!(step_depth(20, true), 20);
    assert_eq!(step_depth(1, false), 1);
    assert_eq!(step_depth(0, false), 1);
    assert_eq!(step_depth(4, false), 3);
}

#[test]
fn arrows_pick_the_closest_region_ahead() {
    // a 2x2 grid of regions, 10 cells each way
    let b = vec![(0u16, 0u16, 10u16, 10u16), (10, 0, 20, 10), (0, 10, 10, 20), (10, 10, 20, 20)];
    assert_eq!(next_region(&b, Some(0), Dir::Right), Some(1));
    assert_eq!(next_region(&b, Some(0), Dir::Down), Some(2));
    assert_eq!(next_region(&b, Some(0), Dir::Left), None);
    assert_eq!(next_region(&b, None, Dir::Up), None);
    assert_eq!(next_region(&b, Some(9), Dir::Up), Some(1));
    assert_eq!(next_region(&[], Some(0), Dir::Up), None);
}

#[test]
fn up_undoes_descend() {
    let mut a = Arena::new_root("/".into());
    let d = a.add(0, "d".into(), true, 0, 0);
    let f = a.add(d, "f".into(), false, 3, 0);
    let mut nav = Nav::new();
    assert_eq!(nav.descend(&a, f, false), Step::NotADirectory);
    assert_eq!(nav.descend(&a, d, true), Step::Aggregate);
    assert_eq!(nav.descend(&a, d, false), Step::Moved);
    assert_eq!(nav.zoom, d);
    assert_eq!(nav.go_up(&a), Step::Moved);
    assert_eq!((nav.zoom, nav.history.len()), (0, 0));
    assert_eq!(nav.go_up(&a), Step::AtRoot);
    nav.zoom = d;
    assert_eq!(nav.go_up(&a), Step::Moved);
    assert_eq!(nav.zoom, 0);
}

#[test]
fn clipboard_escape() {
    assert_eq!(osc52("/home/hannes"), "\x1b]52;c;L2hvbWUvaGFubmVz\x07");
}

#[test]
fn hyperlink_detection() {
    assert!(hyperlinks_for(Some("WezTerm"), false, false, None, "xterm"));
    assert!(hyperlinks_for(None, true, false, None, ""));
    assert!(hyperlinks_for(None, false, false, Some("7600"), "xterm-256color"));
    assert!(!hyperlinks_for(None, false, false, Some("5999"), "xterm-256color"));
    assert!(!hyperlinks_for(None, false, false, Some("junk"), "xterm"));
    assert!(hyperlinks_for(None, false, false, None, "xterm-kitty"));
    assert!(hyperlinks_for(Some("Apple_Terminal"), false, false, None, ""));
    assert!(!hyperlinks_for(Some("tmux"), false, false, None, "screen-256color"));
    assert!(usable_terminal(true, "xterm"));
    assert!(!usable_terminal(true, "dumb"));
    assert!(!usable_terminal(true, ""));
    assert!(!usable_terminal(false, "xterm"));
}

#[test]
fn parses_u32_like_std() {
    for s in ["0", "+7", "4294967295", "4294967296", "", "+", "-1", "12a", "007"] {
        assert_eq!(parse_u32(s), s.parse::<u32>().ok(), "{s}");
    }
}

#[test]
fn selection_survives_rebuilds() {
    let r = |node: u32, is_rest: bool, size: u64| Region {
        node,
        rect: SubRect { x: 0, y: 0, w: 1, h: 1 },
        is_rest,
        rest_count: 0,
        size,
        color: [0, 0, 0],
    };
    let regions = vec![r(3, false, 10), r(4, false, 30), r(1, true, 30)];
    assert_eq!(reselect(&regions, Some((4, false))), Some(1));
    assert_eq!(reselect(&regions, Some((4, true))), Some(2));
    assert_eq!(reselect(&regions, None), Some(2));
    assert_eq!(reselect(&[], Some((4, false))), None);
}

#[test]
fn click_selects_then_descends() {
    assert_eq!(click(None, Some(3)), Click::Select(3));
    assert_eq!(click(Some(1), Some(3)), Click::Select(3));
    assert_eq!(click(Some(3), Some(3)), Click::Descend);
    assert_eq!(click(Some(3), None), Click::Nothing);
}
