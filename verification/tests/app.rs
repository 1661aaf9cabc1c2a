use bloat::app::{base64, header_split, help_box, needs_rebuild, split_screen};

#[test]
fn base64_matches_reference() {
    assert_eq!(base64(b""), "");
    assert_eq!(base64(b"f"), "Zg==");
    assert_eq!(base64(b"fo"), "Zm8=");
    assert_eq!(base64(b"foo"), "Zm9v");
    assert_eq!(base64(b"foobar"), "Zm9vYmFy");
    assert_eq!(base64(b"/home/hannes"), "L2hvbWUvaGFubmVz");
}

#[test]
fn base64_length_rounds_up_to_groups() {
    for n in 0..20usize {
        let data = vec![0xffu8; n];
        assert_eq!(base64(&data).len(), 4 * ((n + 2) / 3));
    }
    assert_eq!(base64(&[0xfb, 0xff]), "+/8=");
}

#[test]
fn help_box_is_centred_and_bounded() {
    assert_eq!(help_box(0, 0, 80, 24), Some((9, 3, 62, 17)));
    assert_eq!(help_box(0, 0, 40, 12), Some((1, 1, 38, 10)));
    assert_eq!(help_box(0, 0, 21, 24), None);
    assert_eq!(help_box(0, 0, 80, 7), None);
}

#[test]
fn header_keeps_room_for_crumbs() {
    assert_eq!(header_split(80, 30), (30, 50));
    assert_eq!(header_split(20, 30), (12, 8));
    assert_eq!(header_split(5, 3), (0, 5));
}

#[test]
fn screen_splits_into_header_map_and_footer() {
    let s = split_screen(0, 0, 80, 24);
    assert_eq!(s.header, (0, 0, 80, 1));
    assert_eq!(s.map, (0, 1, 80, 21));
    assert_eq!(s.detail, (0, 22, 80, 1));
    assert_eq!(s.hints, (0, 23, 80, 1));
    let t = split_screen(2, 3, 10, 3);
    assert_eq!(t.header, (2, 3, 10, 1));
    assert_eq!(t.map, (2, 4, 10, 2));
    assert_eq!(t.detail, (2, 6, 10, 0));
    assert_eq!(t.hints, (2, 6, 10, 0));
}

#[test]
fn rebuilds_when_asked_resized_or_new_entries_settle() {
    assert!(needs_rebuild(true, false, 5, 5, false, false, false));
    assert!(needs_rebuild(false, true, 5, 5, false, false, false));
    assert!(!needs_rebuild(false, false, 5, 5, true, false, true));
    assert!(needs_rebuild(false, false, 6, 5, true, true, false));
    assert!(!needs_rebuild(false, false, 6, 5, false, true, true));
    assert!(!needs_rebuild(false, false, 6, 5, false, false, false));
    assert!(needs_rebuild(false, false, 6, 5, false, false, true));
}
