use bloat::treemap::{distribute, squarify, SubRect};

#[test]
fn tiles_the_area_exactly() {
    let area = SubRect {
        x: 0,
        y: 0,
        w: 200,
        h: 100,
    };
    let weights = vec![1_000u64, 500, 300, 200, 100, 50, 1];
    let mut out = Vec::new();
    squarify(&weights, area, &mut out);
    assert_eq!(out.len(), weights.len());
    let covered: u64 = out.iter().map(|r| r.area()).sum();
    assert_eq!(covered, area.area(), "rects must tile the area");
    for r in &out {
        assert!(r.x >= area.x && r.y >= area.y);
        assert!(r.x + r.w <= area.x + area.w);
        assert!(r.y + r.h <= area.y + area.h);
        assert!(r.w > 0 && r.h > 0);
    }
}

#[test]
fn distribute_is_exact() {
    for weights in [
        vec![1u64, 1, 1],
        vec![1, 2, 3],
        vec![1_000_000, 1, 1],
        vec![7, 7, 7, 7, 7],
    ] {
        let out = distribute(97, &weights);
        assert_eq!(out.iter().sum::<u32>(), 97);
        assert!(out.iter().all(|x| *x > 0));
    }
}

#[test]
fn distribute_values() {
    assert_eq!(distribute(10, &[1, 1]), vec![5, 5]);
    assert_eq!(distribute(3, &[1_000_000, 1, 1]), vec![1, 1, 1]);
    assert_eq!(distribute(0, &[1, 2]).iter().sum::<u32>(), 0);
}

#[test]
fn handles_tiny_areas() {
    let mut out = Vec::new();
    squarify(&[10, 5], SubRect { x: 0, y: 0, w: 1, h: 1 }, &mut out);
    assert_eq!(out.len(), 2);
    squarify(&[10], SubRect::default(), &mut out);
    assert_eq!(out.len(), 1);
}

#[test]
fn rects_do_not_overlap() {
    let area = SubRect { x: 3, y: 5, w: 80, h: 40 };
    let weights = vec![40u64, 30, 20, 10, 5, 5];
    let mut out = Vec::new();
    squarify(&weights, area, &mut out);
    for (i, a) in out.iter().enumerate() {
        for b in out.iter().skip(i + 1) {
            let apart = a.x + a.w <= b.x || b.x + b.w <= a.x || a.y + a.h <= b.y || b.y + b.h <= a.y;
            assert!(apart || a.w == 0 || a.h == 0 || b.w == 0 || b.h == 0);
        }
    }
    let covered: u64 = out.iter().map(|r| r.area()).sum();
    assert_eq!(covered, area.area());
}

#[test]
fn inset_shrinks_or_collapses() {
    let r = SubRect { x: 2, y: 3, w: 10, h: 6 };
    assert_eq!(r.inset(1), SubRect { x: 3, y: 4, w: 8, h: 4 });
    assert_eq!(r.inset(3), SubRect { x: 2, y: 3, w: 0, h: 0 });
    assert_eq!(r.area(), 60);
}
