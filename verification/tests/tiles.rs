use bloat::arena::{Arena, NodeId};
use bloat::fmt::{group, human};
use bloat::labels::{cell_bounds, place_labels, Region};
use bloat::raster::{hit, Raster, EMPTY};
use bloat::tiles::{settle_layout, shown_items, tiles, Tile};
use bloat::treemap::SubRect;

fn tree() -> (Arena, NodeId) {
    let mut a = Arena::new_root("/".into());
    let big = a.add(0, "big".into(), true, 0, 0);
    a.add(big, "b1".into(), false, 8_000_000, 0);
    a.add(big, "b2".into(), false, 4_000_000, 0);
    let small = a.add(0, "small".into(), true, 0, 0);
    a.add(small, "s1".into(), false, 1000, 0);
    a.add(0, "tiny.txt".into(), false, 512, 0);
    (a, 0)
}

/// Lays the tree out on a `w` by `h` cell area and paints each tile's owner.
fn paint(arena: &Arena, root: NodeId, w: u16, h: u16, depth: u16) -> (Raster, Vec<Tile>) {
    let (pw, ph) = (w as u32, h as u32 * 2);
    let mut raster = Raster::new(pw, ph, [16, 16, 20]);
    if pw == 0 || ph == 0 {
        return (raster, Vec::new());
    }
    let ts = tiles(arena, root, SubRect { x: 0, y: 0, w: pw, h: ph }, depth);
    for (i, t) in ts.iter().enumerate() {
        raster.fill(t.rect, i as u32, |_x: u32, _y: u32| [200, 100, 50]);
    }
    (raster, ts)
}

#[test]
fn lays_out_and_renders() {
    let (arena, root) = tree();
    let (raster, ts) = paint(&arena, root, 60, 20, 4);
    assert_eq!(raster.w, 60);
    assert_eq!(raster.h, 40);
    assert!(!ts.is_empty());
    // the dominant child covers the area; small siblings may be sub-pixel
    assert!(ts.iter().any(|t| t.size >= 8_000_000));

    // every pixel is owned by some tile
    let owned = raster.owner.iter().filter(|o| **o != EMPTY).count();
    assert_eq!(owned, 60 * 40);

    let (x0, y0, x1, y1) = cell_bounds(ts[0].rect);
    assert!(x1 > x0 && y1 > y0);
    assert!(hit(&raster, 60, 20, 0, 0).is_some());
    assert!(hit(&raster, 60, 20, 59, 19).is_some());
    assert!(hit(&raster, 60, 20, 99, 99).is_none());

    // labels never exceed the area
    let regions: Vec<Region> = ts
        .iter()
        .map(|t| Region {
            node: t.node,
            rect: t.rect,
            is_rest: t.is_rest,
            rest_count: t.rest_count,
            size: t.size,
            color: [0, 0, 0],
        })
        .collect();
    let names: Vec<String> = ts
        .iter()
        .map(|t| if t.is_rest { format!("+{} more", group(t.rest_count)) } else { arena.basename(t.node).to_string() })
        .collect();
    let sizes: Vec<String> = ts.iter().map(|t| human(t.size)).collect();
    for l in place_labels(&regions, &names, &sizes) {
        assert!(l.x < 60 && l.y < 20);
    }
}

#[test]
fn handles_tiny_terminal() {
    let (arena, root) = tree();
    for (w, h) in [(1u16, 1u16), (2, 1), (3, 3), (4, 2)] {
        let (raster, ts) = paint(&arena, root, w, h, 3);
        assert_eq!(raster.w, w as u32);
        for t in &ts {
            assert!(t.rect.x + t.rect.w <= w as u32 && t.rect.y + t.rect.h <= h as u32 * 2);
        }
    }
}

#[test]
fn big_directories_get_aggregated() {
    let mut a = Arena::new_root("/".into());
    for i in 0..100u64 {
        a.add(0, format!("f{i}"), false, (i + 1) * 1000, 0);
    }
    let (_raster, ts) = paint(&a, 0, 80, 24, 3);
    assert!(ts.iter().any(|t| t.is_rest));
    assert!(ts.len() >= 20, "{} regions", ts.len());
    assert!(ts.iter().all(|t| t.rect.w > 0 && t.rect.h > 0));
}

#[test]
fn nested_tiles_follow_their_directory() {
    let (arena, root) = tree();
    let ts = tiles(&arena, root, SubRect { x: 0, y: 0, w: 60, h: 40 }, 4);
    let names: Vec<&str> = ts.iter().map(|t| arena.basename(t.node)).collect();
    assert_eq!(names[0], "big");
    assert_eq!(names[1], "b1");
    assert_eq!(names[2], "b2");
    assert_eq!(ts[0].depth, 0);
    assert_eq!(ts[1].depth, 1);
    let outer = ts[0].rect;
    for t in &ts[1..3] {
        assert!(t.rect.x > outer.x && t.rect.x + t.rect.w < outer.x + outer.w);
        assert!(t.rect.y > outer.y && t.rect.y + t.rect.h < outer.y + outer.h);
    }
    // with a depth limit of one level nothing nests
    let flat = tiles(&arena, root, SubRect { x: 0, y: 0, w: 60, h: 40 }, 1);
    assert!(flat.iter().all(|t| t.depth == 0));
}

#[test]
fn the_rest_is_one_entry_placed_by_size() {
    let mut a = Arena::new_root("/".into());
    for i in 0..5u64 {
        a.add(0, format!("f{i}"), false, 100 - i, 0);
    }
    // room for 2 entries: the other three are aggregated
    let items = shown_items(&a, 0, 2);
    let got: Vec<(u64, bool, u64)> = items.iter().map(|i| (i.size, i.is_rest, i.rest_count)).collect();
    assert_eq!(got, vec![(97 + 96 + 98, true, 3), (100, false, 0), (99, false, 0)]);
    // with room for every entry there is no aggregate
    let all = shown_items(&a, 0, 32);
    assert_eq!(all.len(), 5);
    assert!(all.iter().all(|i| !i.is_rest));
}

#[test]
fn sub_pixel_entries_join_the_rest() {
    let mut a = Arena::new_root("/".into());
    a.add(0, "big".into(), false, 1_000_000, 0);
    for i in 0..11u64 {
        a.add(0, format!("t{i}"), false, 1, 0);
    }
    // 40 by 40 pixels give room for 12 entries, but the eleven one-byte files
    // get no pixel, so the layout settles on room for 2 and aggregates ten
    let (items, rects) = settle_layout(&a, 0, SubRect { x: 0, y: 0, w: 40, h: 40 }).unwrap();
    assert_eq!(items.len(), 3);
    assert_eq!(rects.len(), 3);
    assert_eq!(items[0].size, 1_000_000);
    assert!(items.iter().any(|i| i.is_rest && i.rest_count == 10 && i.size == 10));
    // with nothing too small the first layout stands
    let mut b = Arena::new_root("/".into());
    for i in 0..4u64 {
        b.add(0, format!("f{i}"), false, 1000, 0);
    }
    let (items, _) = settle_layout(&b, 0, SubRect { x: 0, y: 0, w: 40, h: 40 }).unwrap();
    assert_eq!(items.len(), 4);
    assert!(items.iter().all(|i| !i.is_rest));
}
