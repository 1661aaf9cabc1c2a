use bloat::labels::{by_size, cell_bounds, glow, overlaps, place_labels, Glow, Region};
use bloat::raster::{hit, Raster, EMPTY};
use bloat::report::paint;
use bloat::treemap::SubRect;

#[test]
fn cell_bounds_round_pixel_rows() {
    assert_eq!(cell_bounds(SubRect { x: 0, y: 0, w: 10, h: 4 }), (0, 0, 10, 2));
    assert_eq!(cell_bounds(SubRect { x: 3, y: 3, w: 4, h: 2 }), (3, 1, 7, 3));
    assert_eq!(cell_bounds(SubRect { x: 5, y: 3, w: 0, h: 0 }), (5, 1, 6, 2));
}

#[test]
fn overlap_needs_a_shared_cell() {
    assert!(overlaps((0, 0, 5, 1), (4, 0, 9, 1)));
    assert!(!overlaps((0, 0, 5, 1), (5, 0, 9, 1)));
    assert!(!overlaps((0, 0, 5, 1), (0, 1, 5, 2)));
}

#[test]
fn order_is_biggest_first_and_stable() {
    assert_eq!(by_size(&[5, 9, 5, 1]), vec![1, 0, 2, 3]);
    assert_eq!(by_size(&[]), Vec::<usize>::new());
}

fn region(x: u32, w: u32, h: u32, size: u64) -> Region {
    Region { node: 0, rect: SubRect { x, y: 0, w, h }, is_rest: false, rest_count: 0, size, color: [0, 0, 0] }
}

#[test]
fn labels_take_the_first_free_row() {
    // cell bounds (0, 0, 20, 5), (0, 0, 20, 5) and (30, 0, 33, 5)
    let regions = vec![region(0, 20, 10, 100), region(0, 20, 10, 50), region(30, 3, 10, 70)];
    let names = vec!["alpha".to_string(), "beta".to_string(), "tiny".to_string()];
    let sizes = vec!["100B".to_string(), "50B".to_string(), "70B".to_string()];
    let spots = place_labels(&regions, &names, &sizes);
    let got: Vec<(usize, u16, u16, u16, &str, bool)> =
        spots.iter().map(|s| (s.region, s.x, s.y, s.width, s.text.as_str(), s.bold)).collect();
    assert_eq!(
        got,
        vec![
            (0, 15, 0, 4, "100B", false),
            (0, 1, 0, 13, "alpha", true),
            (1, 16, 1, 3, "50B", false),
            (1, 1, 1, 14, "beta", true),
        ]
    );
}

#[test]
fn crowded_regions_go_unlabelled() {
    let regions: Vec<Region> = (0..5).map(|i| region(0, 12, 6, 5 - i)).collect();
    let names: Vec<String> = (0..5).map(|i| format!("n{i}")).collect();
    let sizes: Vec<String> = (0..5).map(|i| format!("{i}B")).collect();
    let spots = place_labels(&regions, &names, &sizes);
    let rows: Vec<u16> = spots.iter().filter(|s| s.bold).map(|s| s.y).collect();
    assert_eq!(rows, vec![0, 1, 2]);
    for (i, a) in spots.iter().enumerate() {
        for b in spots.iter().skip(i + 1) {
            assert!(a.y != b.y || a.x + a.width <= b.x || b.x + b.width <= a.x);
        }
    }
}

#[test]
fn long_names_are_cut_to_the_room() {
    let spots = place_labels(&[region(0, 12, 4, 1)], &["a-very-long-name".to_string()], &["1.5M".to_string()]);
    assert_eq!(spots.len(), 2);
    assert_eq!(spots[1].text, "a-ve…");
    assert_eq!(spots[1].width, 5);
    assert_eq!((spots[0].x, spots[0].text.as_str()), (7, "1.5M"));
}

#[test]
fn raster_reads_and_writes() {
    let mut r = Raster::new(4, 3, [1, 2, 3]);
    assert_eq!(r.at(0, 0), [1, 2, 3]);
    assert_eq!(r.at(9, 9), [1, 2, 3]);
    assert_eq!(r.owner_at(1, 1), EMPTY);
    r.put(2, 1, [9, 9, 9]);
    r.put(7, 1, [8, 8, 8]);
    assert_eq!(r.at(2, 1), [9, 9, 9]);
    assert_eq!(r.at(3, 1), [1, 2, 3]);
}

#[test]
fn raster_fill_is_clipped() {
    let mut r = Raster::new(4, 3, [0, 0, 0]);
    r.fill(SubRect { x: 2, y: 1, w: 5, h: 5 }, 7, |x, y| [x as u8, y as u8, 1]);
    assert_eq!(r.at(3, 2), [3, 2, 1]);
    assert_eq!(r.owner_at(3, 2), 7);
    assert_eq!(r.owner_at(1, 1), EMPTY);
    assert_eq!(r.at(1, 1), [0, 0, 0]);
}

#[test]
fn raster_outline_is_a_frame() {
    let mut r = Raster::new(5, 5, [0, 0, 0]);
    r.outline(SubRect { x: 0, y: 0, w: 4, h: 3 }, [5, 5, 5]);
    assert_eq!(r.at(0, 0), [5, 5, 5]);
    assert_eq!(r.at(3, 2), [5, 5, 5]);
    assert_eq!(r.at(1, 1), [0, 0, 0]);
    assert_eq!(r.at(4, 4), [0, 0, 0]);
    r.outline(SubRect { x: 0, y: 0, w: 2, h: 9 }, [7, 7, 7]);
    assert_eq!(r.at(0, 4), [0, 0, 0]);
}

#[test]
fn painted_text() {
    assert_eq!(paint([1, 22, 255], true, "x"), "\x1b[38;2;1;22;255mx\x1b[0m");
    assert_eq!(paint([1, 22, 255], false, "x"), "x");
}

#[test]
fn hit_prefers_the_top_pixel() {
    let mut r = Raster::new(3, 4, [0, 0, 0]);
    r.fill(SubRect { x: 0, y: 1, w: 3, h: 3 }, 4, |_, _| [1, 1, 1]);
    r.fill(SubRect { x: 0, y: 2, w: 1, h: 1 }, 9, |_, _| [2, 2, 2]);
    assert_eq!(hit(&r, 3, 2, 0, 0), Some(4));
    assert_eq!(hit(&r, 3, 2, 0, 1), Some(9));
    assert_eq!(hit(&r, 3, 2, 3, 0), None);
    let empty = Raster::new(3, 4, [0, 0, 0]);
    assert_eq!(hit(&empty, 3, 2, 1, 1), None);
}

#[test]
fn selection_outshines_hover() {
    let b = (2, 1, 6, 4);
    assert_eq!(glow(3, 3, 2, 2, Some((3, b)), None), Glow::SelectedEdge);
    assert_eq!(glow(3, 9, 4, 2, Some((3, b)), None), Glow::Selected);
    assert_eq!(glow(9, 3, 4, 2, Some((3, b)), Some((9, b))), Glow::Selected);
    assert_eq!(glow(9, 9, 4, 2, Some((3, b)), Some((9, b))), Glow::Hovered);
    assert_eq!(glow(9, 9, 5, 2, Some((3, b)), Some((9, b))), Glow::HoveredEdge);
    assert_eq!(glow(3, 3, 4, 2, Some((9, b)), Some((3, b))), Glow::Hovered);
    assert_eq!(glow(3, 3, 4, 2, Some((3, b)), Some((3, b))), Glow::Selected);
    assert_eq!(glow(9, 9, 4, 2, Some((9, b)), Some((9, b))), Glow::Selected);
    assert_eq!(glow(1, 1, 4, 2, Some((3, b)), Some((9, b))), Glow::Plain);
    assert_eq!(glow(1, 1, 4, 2, None, None), Glow::Plain);
}
