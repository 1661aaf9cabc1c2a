//! Where the treemap's name and size labels go: biggest regions first, each
//! on the first of its top three rows that no earlier label row touches, so
//! labels never overlap.
use vstd::prelude::*;
use crate::fmt::{colsum, str_width, truncate, truncated, width};
use crate::arena::NodeId;
use crate::raster::Rgb;
use crate::treemap::SubRect;

verus! {

/// Cell rectangle `(x0, y0, x1, y1)`, end-exclusive.
pub type Bounds = (u16, u16, u16, u16);

/// Cell-space bounds of a pixel rectangle: two pixel rows per cell row, and
/// at least one cell each way.
pub open spec fn cell_bounds_of(r: SubRect) -> Bounds {
    let x0 = r.x as u16;
    let y0 = (r.y / 2) as u16;
    let x1 = (r.x + r.w) as u16;
    let y1 = ((r.y + r.h + 1) / 2) as u16;
    (x0, y0, if x1 > x0 { x1 } else { (x0 + 1) as u16 }, if y1 > y0 { y1 } else { (y0 + 1) as u16 })
}

/// Cell-space bounds of a region's pixel rectangle.
pub fn cell_bounds(r: SubRect) -> (b: Bounds)
    requires
        r.x + r.w <= u32::MAX,
        r.y + r.h + 1 <= u32::MAX,
        (r.x as u16) < u16::MAX,
        ((r.y / 2) as u16) < u16::MAX,
    ensures
        b == cell_bounds_of(r),
{
    let x0 = r.x as u16;
    let y0 = (r.y / 2) as u16;
    let x1 = (r.x + r.w) as u16;
    let y1 = ((r.y + r.h + 1) / 2) as u16;
    (x0, y0, if x1 > x0 { x1 } else { x0 + 1 }, if y1 > y0 { y1 } else { y0 + 1 })
}

/// Two cell rectangles share a cell.
pub open spec fn meet(a: Bounds, b: Bounds) -> bool {
    a.0 < b.2 && b.0 < a.2 && a.1 < b.3 && b.1 < a.3
}

/// Two cell rectangles share a cell.
pub fn overlaps(a: Bounds, b: Bounds) -> (r: bool)
    ensures
        r == meet(a, b),
{
    a.0 < b.2 && b.0 < a.2 && a.1 < b.3 && b.1 < a.3
}

/// How a treemap cell is lit: plain, or as part of the selected or the
/// hovered region, brighter on that region's outermost cells.
#[derive(Clone, Copy, Debug, PartialEq, Eq, Structural)]
pub enum Glow {
    Plain,
    SelectedEdge,
    Selected,
    HoveredEdge,
    Hovered,
}

/// Cell `(cx, cy)` lies on the outermost ring of `b`.
pub open spec fn on_edge(b: Bounds, cx: int, cy: int) -> bool {
    cx <= b.0 || cx + 1 >= b.2 || cy <= b.1 || cy + 1 >= b.3
}

/// How cell `(cx, cy)`, whose top and bottom half are owned by regions `top`
/// and `bottom`, is lit: by the selection `(index, bounds)` when either half
/// belongs to it, else by the hovered region when that is another one and
/// either half belongs to it.
pub open spec fn glow_of(
    top: u32,
    bottom: u32,
    cx: int,
    cy: int,
    sel: Option<(u32, Bounds)>,
    hover: Option<(u32, Bounds)>,
) -> Glow {
    let lit_sel = match sel {
        Some((s, _)) => top == s || bottom == s,
        None => false,
    };
    let lit_hover = match (sel, hover) {
        (Some((s, _)), Some((h, _))) => s != h && (top == h || bottom == h),
        (None, Some((h, _))) => top == h || bottom == h,
        _ => false,
    };
    match (sel, hover) {
        (Some((_, b)), _) if lit_sel => if on_edge(b, cx, cy) {
            Glow::SelectedEdge
        } else {
            Glow::Selected
        },
        (_, Some((_, b))) if lit_hover => if on_edge(b, cx, cy) {
            Glow::HoveredEdge
        } else {
            Glow::Hovered
        },
        _ => Glow::Plain,
    }
}

fn ring(b: Bounds, cx: u16, cy: u16) -> (r: bool)
    ensures
        r == on_edge(b, cx as int, cy as int),
{
    cx <= b.0 || cx as u32 + 1 >= b.2 as u32 || cy <= b.1 || cy as u32 + 1 >= b.3 as u32
}

/// How cell `(cx, cy)` of the treemap is lit (see `glow_of`).
pub fn glow(
    top: u32,
    bottom: u32,
    cx: u16,
    cy: u16,
    sel: Option<(u32, Bounds)>,
    hover: Option<(u32, Bounds)>,
) -> (g: Glow)
    ensures
        g == glow_of(top, bottom, cx as int, cy as int, sel, hover),
{
    if let Some((s, b)) = sel {
        if top == s || bottom == s {
            return if ring(b, cx, cy) { Glow::SelectedEdge } else { Glow::Selected };
        }
    }
    if let Some((h, b)) = hover {
        let same = match sel {
            Some((s, _)) => s == h,
            None => false,
        };
        if !same && (top == h || bottom == h) {
            return if ring(b, cx, cy) { Glow::HoveredEdge } else { Glow::Hovered };
        }
    }
    Glow::Plain
}

/// Law: how a cell is lit. A cell with a half in the selected region is lit
/// as selected, brighter on the selection's outermost ring of cells; failing
/// that, a cell with a half in the hovered region (when that is not the
/// selected one) is lit as hovered, likewise brighter on its ring; every other
/// cell is plain.
pub proof fn law_glow(
    top: u32,
    bottom: u32,
    cx: int,
    cy: int,
    has_sel: bool,
    s: u32,
    sb: Bounds,
    has_hover: bool,
    h: u32,
    hb: Bounds,
)
    ensures
        ({
            let sel = if has_sel { Some((s, sb)) } else { None };
            let hover = if has_hover { Some((h, hb)) } else { None };
            let g = glow_of(top, bottom, cx, cy, sel, hover);
            let in_sel = has_sel && (top == s || bottom == s);
            let in_hover = has_hover && (top == h || bottom == h) && !(has_sel && s == h);
            let sel_ring = cx <= sb.0 || cx + 1 >= sb.2 || cy <= sb.1 || cy + 1 >= sb.3;
            let hover_ring = cx <= hb.0 || cx + 1 >= hb.2 || cy <= hb.1 || cy + 1 >= hb.3;
            &&& in_sel ==> g == (if sel_ring { Glow::SelectedEdge } else { Glow::Selected })
            &&& !in_sel && in_hover ==> g == (if hover_ring { Glow::HoveredEdge } else { Glow::Hovered })
            &&& !in_sel && !in_hover ==> g == Glow::Plain
        }),
{
}

/// Law: a region's cell bounds hold every cell that shows one of its
/// pixels (two pixel rows per cell row), and are at least one cell each way.
pub proof fn law_cell_bounds_cover(r: SubRect, x: int, y: int)
    requires
        r.x + r.w + 1 <= u16::MAX,
        r.y + r.h + 1 <= u16::MAX,
    ensures
        ({
            let b = cell_bounds_of(r);
            &&& b.0 < b.2
            &&& b.1 < b.3
            &&& (r.x <= x < r.x + r.w && r.y <= y < r.y + r.h) ==> b.0 <= x < b.2 && b.1 <= y / 2 < b.3
        }),
{
}

/// A placed label: the region it names, its left cell, its row, the columns
/// reserved for it, its text, and whether it is the (bold) name.
pub struct Spot {
    pub region: int,
    pub x: int,
    pub y: int,
    pub width: int,
    pub text: Seq<char>,
    pub bold: bool,
}

/// Placement so far: the labels, the row rectangles taken, and for each label
/// the index of the row rectangle it sits in.
pub struct Placed {
    pub spots: Seq<Spot>,
    pub rows: Seq<Bounds>,
    pub owner: Seq<int>,
}

/// No taken row rectangle meets `r`.
pub open spec fn row_free(rows: Seq<Bounds>, r: Bounds) -> bool {
    forall|m: int| 0 <= m < rows.len() ==> !meet(#[trigger] rows[m], r)
}

/// First row in `y..end` of the band `x0..x1` that is free, or -1.
pub open spec fn first_free(rows: Seq<Bounds>, x0: int, x1: int, y: int, end: int) -> int
    decreases end - y,
{
    if y >= end {
        -1
    } else if row_free(rows, (x0 as u16, y as u16, x1 as u16, (y + 1) as u16)) {
        y
    } else {
        first_free(rows, x0, x1, y + 1, end)
    }
}

/// Label one region (index `k`, bounds `b`) on top of placement `p`.
pub open spec fn place_one(p: Placed, k: int, b: Bounds, name: Seq<char>, size: Seq<char>) -> Placed {
    let (x0, y0, x1, y1) = (b.0 as int, b.1 as int, b.2 as int, b.3 as int);
    let w = if x1 > x0 { x1 - x0 } else { 0 };
    let h = if y1 > y0 { y1 - y0 } else { 0 };
    let end = if y0 + 3 < y1 { y0 + 3 } else { y1 };
    let row = first_free(p.rows, x0, x1, y0, end);
    if w < 6 || h < 2 || row == -1 {
        p
    } else {
        let size_w = str_width(size) as int;
        let has_size = w - 1 >= size_w + 4;
        let sx = x1 - 1 - size_w;
        let cursor = if has_size { sx - 1 } else { x1 - 1 };
        let room = if cursor > x0 + 1 { cursor - (x0 + 1) } else { 0 };
        let m = p.rows.len() as int;
        let s1: Seq<Spot> = if has_size {
            seq![Spot { region: k, x: sx, y: row, width: size_w, text: size, bold: false }]
        } else {
            Seq::empty()
        };
        let s2: Seq<Spot> = if room >= 2 {
            seq![Spot { region: k, x: x0 + 1, y: row, width: room, text: truncated(name, room as nat), bold: true }]
        } else {
            Seq::empty()
        };
        Placed {
            spots: p.spots + s1 + s2,
            rows: p.rows.push((x0 as u16, row as u16, x1 as u16, (row + 1) as u16)),
            owner: p.owner + Seq::new(s1.len() + s2.len(), |i: int| m),
        }
    }
}

/// Label the regions in `order`, up to position `n`.
pub open spec fn place_run(
    bounds: Seq<Bounds>,
    names: Seq<String>,
    sizes: Seq<String>,
    order: Seq<usize>,
    n: int,
) -> Placed
    decreases n,
{
    if n <= 0 {
        Placed { spots: Seq::empty(), rows: Seq::empty(), owner: Seq::empty() }
    } else {
        let k = order[n - 1] as int;
        place_one(place_run(bounds, names, sizes, order, n - 1), k, bounds[k], names[k]@, sizes[k]@)
    }
}

/// `order` lists `0..n` biggest first, ties in index order.
pub open spec fn size_order(order: Seq<usize>, weights: Seq<u64>) -> bool {
    &&& order.len() == weights.len()
    &&& forall|i: int| 0 <= i < order.len() ==> (#[trigger] order[i] as int) < weights.len()
    &&& forall|k: usize| (k as int) < weights.len() ==> #[trigger] order.contains(k)
    &&& forall|i: int, j: int|
        0 <= i < j < order.len() ==> weights[order[i] as int] > weights[order[j] as int] || (weights[order[i] as int]
            == weights[order[j] as int] && order[i] < order[j])
}

/// Indices `0..n` ordered by weight, biggest first, ties in index order (a
/// stable sort).
pub fn by_size(weights: &[u64]) -> (order: Vec<usize>)
    ensures
        size_order(order@, weights@),
{
    let n = weights.len();
    let mut order: Vec<usize> = Vec::new();
    let mut k: usize = 0;
    while k < n
        invariant
            n == weights@.len(),
            k <= n,
            order@.len() == k,
            forall|i: int| 0 <= i < order@.len() ==> (#[trigger] order@[i] as int) < k,
            forall|q: usize| q < k ==> #[trigger] order@.contains(q),
            forall|i: int, j: int|
                0 <= i < j < order@.len() ==> weights@[order@[i] as int] > weights@[order@[j] as int] || (
                weights@[order@[i] as int] == weights@[order@[j] as int] && order@[i] < order@[j]),
        decreases n - k,
    {
        // After every entry at least as big as `k`.
        let mut pos: usize = 0;
        while pos < order.len() && weights[order[pos]] >= weights[k]
            invariant
                n == weights@.len(),
                k < n,
                pos <= order@.len(),
                forall|i: int| 0 <= i < order@.len() ==> (#[trigger] order@[i] as int) < k,
                forall|q: int| 0 <= q < pos ==> weights@[order@[q] as int] >= weights@[k as int],
            decreases order@.len() - pos,
        {
            pos = pos + 1;
        }
        let ghost before = order@;
        proof {
            // Entries after `pos` are all smaller: the order is by weight.
            assert forall|q: int| pos <= q < before.len() implies weights@[before[q] as int] < weights@[k as int] by {
                assert(weights@[before[pos as int] as int] < weights@[k as int]);
                if q > pos {
                    assert(weights@[before[pos as int] as int] >= weights@[before[q] as int]);
                }
            }
        }
        order.insert(pos, k);
        proof {
            assert(order@ == before.insert(pos as int, k));
            assert forall|i: int| 0 <= i < order@.len() implies (#[trigger] order@[i] as int) < k + 1 by {
                if i < pos {
                    assert(order@[i] == before[i]);
                } else if i > pos {
                    assert(order@[i] == before[i - 1]);
                }
            }
            assert forall|q: usize| q < k + 1 implies #[trigger] order@.contains(q) by {
                if q == k {
                    assert(order@[pos as int] == k);
                } else {
                    assert(before.contains(q));
                    let i = choose|i: int| 0 <= i < before.len() && before[i] == q;
                    if i < pos {
                        assert(order@[i] == q);
                    } else {
                        assert(order@[i + 1] == q);
                    }
                }
            }
            assert forall|i: int, j: int| 0 <= i < j < order@.len() implies weights@[order@[i] as int]
                > weights@[order@[j] as int] || (weights@[order@[i] as int] == weights@[order@[j] as int]
                && order@[i] < order@[j]) by {
                let a = if i < pos { before[i] } else if i == pos { k } else { before[i - 1] };
                let b = if j < pos { before[j] } else if j == pos { k } else { before[j - 1] };
                assert(order@[i] == a && order@[j] == b);
                if i == pos {
                    assert(weights@[b as int] < weights@[k as int]);
                } else if j == pos {
                    assert(weights@[a as int] >= weights@[k as int]);
                    assert((a as int) < k);
                } else if i < pos && j > pos {
                    assert(weights@[before[j - 1] as int] < weights@[k as int]);
                    assert(weights@[before[i] as int] >= weights@[k as int]);
                }
            }
        }
        k = k + 1;
    }
    order
}


/// Two labels do not share a cell: different rows, or column ranges apart.
pub open spec fn apart(a: Spot, b: Spot) -> bool {
    a.y != b.y || a.x + a.width <= b.x || b.x + b.width <= a.x
}

/// What a placement keeps true: taken rows never meet, every label sits
/// inside its row, and the size label of a row comes right of its name.
pub open spec fn placed_ok(p: Placed) -> bool {
    &&& forall|m1: int, m2: int| 0 <= m1 < m2 < p.rows.len() ==> !meet(#[trigger] p.rows[m1], #[trigger] p.rows[m2])
    &&& forall|m: int| 0 <= m < p.rows.len() ==> (#[trigger] p.rows[m]).3 == p.rows[m].1 + 1
    &&& p.owner.len() == p.spots.len()
    &&& forall|i: int|
        0 <= i < p.spots.len() ==> {
            let o = #[trigger] p.owner[i];
            let r = p.rows[o];
            &&& 0 <= o < p.rows.len()
            &&& p.spots[i].y == r.1
            &&& r.0 <= p.spots[i].x
            &&& 0 <= p.spots[i].width
            &&& p.spots[i].x + p.spots[i].width <= r.2
        }
    &&& forall|i: int, j: int|
        0 <= i < j < p.spots.len() && #[trigger] p.owner[i] == #[trigger] p.owner[j] ==> p.spots[j].x
            + p.spots[j].width <= p.spots[i].x
}

proof fn lemma_first_free(rows: Seq<Bounds>, x0: int, x1: int, y: int, end: int)
    ensures
        first_free(rows, x0, x1, y, end) == -1 || (y <= first_free(rows, x0, x1, y, end) < end && row_free(
            rows,
            (x0 as u16, first_free(rows, x0, x1, y, end) as u16, x1 as u16, (first_free(rows, x0, x1, y, end)
                + 1) as u16),
        )),
    decreases end - y,
{
    if y < end && !row_free(rows, (x0 as u16, y as u16, x1 as u16, (y + 1) as u16)) {
        lemma_first_free(rows, x0, x1, y + 1, end);
    }
}

proof fn lemma_place_one_ok(p: Placed, k: int, b: Bounds, name: Seq<char>, size: Seq<char>)
    requires
        placed_ok(p),
    ensures
        placed_ok(place_one(p, k, b, name, size)),
{
    let (x0, y0, x1, y1) = (b.0 as int, b.1 as int, b.2 as int, b.3 as int);
    let end = if y0 + 3 < y1 { y0 + 3 } else { y1 };
    lemma_first_free(p.rows, x0, x1, y0, end);
    let q = place_one(p, k, b, name, size);
    if q != p {
        let row = first_free(p.rows, x0, x1, y0, end);
        let nr: Bounds = (x0 as u16, row as u16, x1 as u16, (row + 1) as u16);
        assert(q.rows == p.rows.push(nr));
        assert(row_free(p.rows, nr));
        assert(0 <= row < 65535);
        assert(nr.3 == nr.1 + 1);
        assert forall|m1: int, m2: int| 0 <= m1 < m2 < q.rows.len() implies !meet(#[trigger] q.rows[m1], #[trigger] q.rows[m2]) by {
            if m2 == p.rows.len() {
                assert(q.rows[m1] == p.rows[m1]);
                assert(!meet(p.rows[m1], nr));
            } else {
                assert(q.rows[m1] == p.rows[m1] && q.rows[m2] == p.rows[m2]);
            }
        }
        assert forall|m: int| 0 <= m < q.rows.len() implies (#[trigger] q.rows[m]).3 == q.rows[m].1 + 1 by {
            if m < p.rows.len() {
                assert(q.rows[m] == p.rows[m]);
            }
        }
        let n0 = p.spots.len();
        assert forall|i: int| 0 <= i < q.spots.len() implies {
            let o = #[trigger] q.owner[i];
            let r = q.rows[o];
            &&& 0 <= o < q.rows.len()
            &&& q.spots[i].y == r.1
            &&& r.0 <= q.spots[i].x
            &&& 0 <= q.spots[i].width
            &&& q.spots[i].x + q.spots[i].width <= r.2
        } by {
            if i < n0 {
                assert(q.spots[i] == p.spots[i]);
                assert(q.owner[i] == p.owner[i]);
                assert(q.rows[p.owner[i]] == p.rows[p.owner[i]]);
            } else {
                assert(q.owner[i] == p.rows.len());
            }
        }
        assert forall|i: int, j: int|
            0 <= i < j < q.spots.len() && #[trigger] q.owner[i] == #[trigger] q.owner[j] implies q.spots[j].x
                + q.spots[j].width <= q.spots[i].x by {
            if j < n0 {
                assert(q.spots[i] == p.spots[i] && q.spots[j] == p.spots[j]);
                assert(q.owner[i] == p.owner[i] && q.owner[j] == p.owner[j]);
            } else if i < n0 {
                assert(q.owner[i] == p.owner[i]);
                assert(p.owner[i] < p.rows.len());
                assert(q.owner[j] == p.rows.len());
            }
        }
    }
}

/// Every placement `place_run` makes is sound.
proof fn lemma_place_run_ok(
    bounds: Seq<Bounds>,
    names: Seq<String>,
    sizes: Seq<String>,
    order: Seq<usize>,
    n: int,
)
    requires
        0 <= n <= order.len(),
        forall|i: int| 0 <= i < order.len() ==> (#[trigger] order[i] as int) < bounds.len(),
        bounds.len() == names.len(),
        bounds.len() == sizes.len(),
    ensures
        placed_ok(place_run(bounds, names, sizes, order, n)),
    decreases n,
{
    if n > 0 {
        lemma_place_run_ok(bounds, names, sizes, order, n - 1);
        let k = order[n - 1] as int;
        lemma_place_one_ok(place_run(bounds, names, sizes, order, n - 1), k, bounds[k], names[k]@, sizes[k]@);
    }
}

/// Labels never overlap: any two labels placed in any order of the regions
/// lie in different rows or in disjoint column ranges.
pub proof fn law_labels_apart(
    bounds: Seq<Bounds>,
    names: Seq<String>,
    sizes: Seq<String>,
    order: Seq<usize>,
    i: int,
    j: int,
)
    requires
        forall|q: int| 0 <= q < order.len() ==> (#[trigger] order[q] as int) < bounds.len(),
        bounds.len() == names.len(),
        bounds.len() == sizes.len(),
        0 <= i < j < place_run(bounds, names, sizes, order, order.len() as int).spots.len(),
    ensures
        ({
            let s = place_run(bounds, names, sizes, order, order.len() as int).spots;
            apart(s[i], s[j])
        }),
{
    let p = place_run(bounds, names, sizes, order, order.len() as int);
    lemma_place_run_ok(bounds, names, sizes, order, order.len() as int);
    let oi = p.owner[i];
    let oj = p.owner[j];
    if oi != oj {
        let (a, b) = if oi < oj { (p.rows[oi], p.rows[oj]) } else { (p.rows[oj], p.rows[oi]) };
        assert(!meet(a, b));
    }
}


/// The label lies within the cell rectangle `b`: its columns inside
/// `b.0..b.2`, its row inside `b.1..b.3`.
pub open spec fn spot_inside(s: Spot, b: Bounds) -> bool {
    &&& b.0 <= s.x
    &&& s.width >= 0
    &&& s.x + s.width <= b.2
    &&& b.1 <= s.y < b.3
}

proof fn lemma_first_free_range(rows: Seq<Bounds>, x0: int, x1: int, y: int, end: int)
    ensures
        first_free(rows, x0, x1, y, end) == -1 || y <= first_free(rows, x0, x1, y, end) < end,
    decreases end - y,
{
    if y < end {
        lemma_first_free_range(rows, x0, x1, y + 1, end);
    }
}

proof fn lemma_place_run_inside(
    bounds: Seq<Bounds>,
    names: Seq<String>,
    sizes: Seq<String>,
    order: Seq<usize>,
    n: int,
)
    requires
        0 <= n <= order.len(),
        forall|i: int| 0 <= i < order.len() ==> (#[trigger] order[i] as int) < bounds.len(),
        bounds.len() == names.len(),
        bounds.len() == sizes.len(),
    ensures
        forall|i: int|
            0 <= i < place_run(bounds, names, sizes, order, n).spots.len() ==> {
                let s = #[trigger] place_run(bounds, names, sizes, order, n).spots[i];
                0 <= s.region < bounds.len() && spot_inside(s, bounds[s.region])
            },
    decreases n,
{
    if n > 0 {
        lemma_place_run_inside(bounds, names, sizes, order, n - 1);
        let p = place_run(bounds, names, sizes, order, n - 1);
        let k = order[n - 1] as int;
        let b = bounds[k];
        let (x0, y0, x1, y1) = (b.0 as int, b.1 as int, b.2 as int, b.3 as int);
        let end = if y0 + 3 < y1 { y0 + 3 } else { y1 };
        lemma_first_free_range(p.rows, x0, x1, y0, end);
        let q = place_run(bounds, names, sizes, order, n);
        assert forall|i: int| 0 <= i < q.spots.len() implies {
            let s = #[trigger] q.spots[i];
            0 <= s.region < bounds.len() && spot_inside(s, bounds[s.region])
        } by {
            if i < p.spots.len() {
                assert(q.spots[i] == p.spots[i]);
            }
        }
    }
}

/// Law: every label lies inside the cell rectangle of the region it names,
/// so labels of regions inside the treemap area stay inside the area.
pub proof fn law_labels_inside(
    bounds: Seq<Bounds>,
    names: Seq<String>,
    sizes: Seq<String>,
    order: Seq<usize>,
    i: int,
)
    requires
        forall|q: int| 0 <= q < order.len() ==> (#[trigger] order[q] as int) < bounds.len(),
        bounds.len() == names.len(),
        bounds.len() == sizes.len(),
        0 <= i < place_run(bounds, names, sizes, order, order.len() as int).spots.len(),
    ensures
        ({
            let s = place_run(bounds, names, sizes, order, order.len() as int).spots[i];
            0 <= s.region < bounds.len() && spot_inside(s, bounds[s.region])
        }),
{
    lemma_place_run_inside(bounds, names, sizes, order, order.len() as int);
}

/// A label as the treemap draws it.
pub struct LabelSpot {
    pub region: usize,
    pub x: u16,
    pub y: u16,
    /// Columns reserved for the text.
    pub width: u16,
    pub text: String,
    pub bold: bool,
}

pub open spec fn spot_of(l: LabelSpot) -> Spot {
    Spot { region: l.region as int, x: l.x as int, y: l.y as int, width: l.width as int, text: l.text@, bold: l.bold }
}

pub open spec fn spots_of(v: Seq<LabelSpot>) -> Seq<Spot> {
    Seq::new(v.len(), |i: int| spot_of(v[i]))
}

fn row_is_free(rows: &Vec<Bounds>, r: Bounds) -> (ok: bool)
    ensures
        ok == row_free(rows@, r),
{
    let mut m: usize = 0;
    while m < rows.len()
        invariant
            m <= rows@.len(),
            forall|q: int| 0 <= q < m ==> !meet(#[trigger] rows@[q], r),
        decreases rows@.len() - m,
    {
        if overlaps(rows[m], r) {
            return false;
        }
        m = m + 1;
    }
    true
}

/// Label region `k` with bounds `b`: the exec side of `place_one`.
fn place_region(
    rows: &mut Vec<Bounds>,
    out: &mut Vec<LabelSpot>,
    k: usize,
    b: Bounds,
    name: &String,
    size: &String,
    Ghost(p): Ghost<Placed>,
) -> (q: Ghost<Placed>)
    requires
        old(rows)@ == p.rows,
        spots_of(old(out)@) == p.spots,
    ensures
        q@ == place_one(p, k as int, b, name@, size@),
        final(rows)@ == q@.rows,
        spots_of(final(out)@) == q@.spots,
        final(out)@.len() >= old(out)@.len(),
        forall|i: int| 0 <= i < old(out)@.len() ==> final(out)@[i] == old(out)@[i],
        forall|i: int| old(out)@.len() <= i < final(out)@.len() ==> text_fits(#[trigger] final(out)@[i]),
{
    let (x0, y0, x1, y1) = b;
    let w: u16 = if x1 > x0 { x1 - x0 } else { 0 };
    let h: u16 = if y1 > y0 { y1 - y0 } else { 0 };
    let end: u32 = if (y0 as u32) + 3 < (y1 as u32) { y0 as u32 + 3 } else { y1 as u32 };
    let ghost q = place_one(p, k as int, b, name@, size@);
    if w < 6 || h < 2 {
        return Ghost(q);
    }
    // First free row among the top three.
    let mut y: u32 = y0 as u32;
    let mut row: Option<u16> = None;
    while y < end
        invariant_except_break
            row is None,
        invariant
            y0 <= y <= end,
            end <= y1,
            rows@ == p.rows,
            first_free(p.rows, x0 as int, x1 as int, y0 as int, end as int) == first_free(
                p.rows,
                x0 as int,
                x1 as int,
                y as int,
                end as int,
            ),
        ensures
            match row {
                Some(r) => r as int == first_free(p.rows, x0 as int, x1 as int, y0 as int, end as int),
                None => first_free(p.rows, x0 as int, x1 as int, y0 as int, end as int) == -1,
            },
        decreases end - y,
    {
        let r: Bounds = (x0, y as u16, x1, (y + 1) as u16);
        if row_is_free(rows, r) {
            row = Some(y as u16);
            break;
        }
        y = y + 1;
    }
    proof {
        lemma_first_free(p.rows, x0 as int, x1 as int, y0 as int, end as int);
    }
    let row = match row {
        Some(r) => r,
        None => {
            return Ghost(q);
        },
    };
    let size_w = width(size.as_str());
    let inner: u16 = w - 1;
    let has_size = size_w <= 65535 && (inner as usize) >= size_w + 4;
    let sx: u16 = if has_size { x1 - 1 - size_w as u16 } else { 0 };
    let cursor: u16 = if has_size { sx - 1 } else { x1 - 1 };
    let room: u16 = if cursor > x0 + 1 { cursor - (x0 + 1) } else { 0 };
    let ghost before = out@;
    if has_size {
        out.push(LabelSpot { region: k, x: sx, y: row, width: size_w as u16, text: size.clone(), bold: false });
    }
    let ghost mid = out@;
    if room >= 2 {
        let text = truncate(name.as_str(), room as usize);
        out.push(LabelSpot { region: k, x: x0 + 1, y: row, width: room, text, bold: true });
    }
    rows.push((x0, row, x1, row + 1));
    proof {
        assert(spots_of(before) == p.spots);
        assert(spots_of(out@) =~= q.spots);
        assert(rows@ =~= q.rows);
    }
    Ghost(q)
}

/// The label's text fits the columns reserved for it: by its display width,
/// or, for a name cut to fit, by the columns of its characters (the cut mark
/// included).
pub open spec fn text_fits(l: LabelSpot) -> bool {
    str_width(l.text@) <= l.width || colsum(l.text@) <= l.width
}

/// Place the labels of regions with cell bounds `bounds`, weights
/// `weights`, names `names` and size texts `sizes`: biggest region first,
/// each on the first free row of its top three.
fn place_all(bounds: &[Bounds], weights: &[u64], names: &[String], sizes: &[String]) -> (r: Vec<LabelSpot>)
    requires
        bounds@.len() == weights@.len(),
        bounds@.len() == names@.len(),
        bounds@.len() == sizes@.len(),
    ensures
        exists|order: Seq<usize>|
            #[trigger] size_order(order, weights@) && spots_of(r@) == place_run(
                bounds@,
                names@,
                sizes@,
                order,
                order.len() as int,
            ).spots,
        forall|i: int, j: int| 0 <= i < j < r@.len() ==> apart(spot_of(#[trigger] r@[i]), spot_of(#[trigger] r@[j])),
        forall|i: int| 0 <= i < r@.len() ==> text_fits(#[trigger] r@[i]),
{
    let order = by_size(weights);
    let mut rows: Vec<Bounds> = Vec::new();
    let mut out: Vec<LabelSpot> = Vec::new();
    let ghost mut p = place_run(bounds@, names@, sizes@, order@, 0);
    let mut n: usize = 0;
    proof {
        assert(spots_of(out@) =~= p.spots);
    }
    while n < order.len()
        invariant
            size_order(order@, weights@),
            bounds@.len() == weights@.len(),
            bounds@.len() == names@.len(),
            bounds@.len() == sizes@.len(),
            n <= order@.len(),
            p == place_run(bounds@, names@, sizes@, order@, n as int),
            rows@ == p.rows,
            spots_of(out@) == p.spots,
            forall|i: int| 0 <= i < out@.len() ==> text_fits(#[trigger] out@[i]),
        decreases order@.len() - n,
    {
        let k = order[n];
        let Ghost(q) = place_region(&mut rows, &mut out, k, bounds[k], &names[k], &sizes[k], Ghost(p));
        proof {
            p = q;
        }
        n = n + 1;
    }
    proof {
        assert forall|i: int, j: int| 0 <= i < j < out@.len() implies apart(spot_of(#[trigger] out@[i]), spot_of(#[trigger] out@[j])) by {
            law_labels_apart(bounds@, names@, sizes@, order@, i, j);
            assert(spots_of(out@)[i] == spot_of(out@[i]));
            assert(spots_of(out@)[j] == spot_of(out@[j]));
        }
    }
    out
}


/// A laid-out region of the treemap: the node it shows (or whose small
/// entries it aggregates), its pixel rectangle, its size and colour.
#[derive(Clone, Copy, Debug)]
pub struct Region {
    pub node: NodeId,
    pub rect: SubRect,
    pub is_rest: bool,
    pub rest_count: u64,
    pub size: u64,
    pub color: Rgb,
}

/// The rectangle lies where cell bounds can be taken of it.
pub open spec fn fits_cells(r: SubRect) -> bool {
    &&& r.x + r.w <= u32::MAX
    &&& r.y + r.h + 1 <= u32::MAX
    &&& (r.x as u16) < u16::MAX
    &&& ((r.y / 2) as u16) < u16::MAX
}

pub open spec fn region_bounds(regions: Seq<Region>) -> Seq<Bounds> {
    Seq::new(regions.len(), |k: int| cell_bounds_of(regions[k].rect))
}

pub open spec fn region_sizes(regions: Seq<Region>) -> Seq<u64> {
    Seq::new(regions.len(), |k: int| regions[k].size)
}

/// Name and size labels for the treemap's regions (`names[k]` and
/// `sizes[k]` are the texts of region `k`): biggest region first, each on
/// the first row of its top three that no earlier label row touches.
pub fn place_labels(regions: &[Region], names: &[String], sizes: &[String]) -> (r: Vec<LabelSpot>)
    requires
        regions@.len() == names@.len(),
        regions@.len() == sizes@.len(),
        forall|k: int| 0 <= k < regions@.len() ==> fits_cells(#[trigger] regions@[k].rect),
    ensures
        exists|order: Seq<usize>|
            #[trigger] size_order(order, region_sizes(regions@)) && spots_of(r@) == place_run(
                region_bounds(regions@),
                names@,
                sizes@,
                order,
                order.len() as int,
            ).spots,
        forall|i: int, j: int| 0 <= i < j < r@.len() ==> apart(spot_of(#[trigger] r@[i]), spot_of(#[trigger] r@[j])),
        forall|i: int|
            0 <= i < r@.len() ==> (#[trigger] r@[i]).region < regions@.len() && spot_inside(
                spot_of(r@[i]),
                cell_bounds_of(regions@[r@[i].region as int].rect),
            ),
        forall|i: int| 0 <= i < r@.len() ==> text_fits(#[trigger] r@[i]),
{
    let mut bounds: Vec<Bounds> = Vec::new();
    let mut weights: Vec<u64> = Vec::new();
    let mut k: usize = 0;
    while k < regions.len()
        invariant
            k <= regions@.len(),
            forall|q: int| 0 <= q < regions@.len() ==> fits_cells(#[trigger] regions@[q].rect),
            bounds@ == region_bounds(regions@).take(k as int),
            weights@ == region_sizes(regions@).take(k as int),
        decreases regions@.len() - k,
    {
        let r = regions[k].rect;
        bounds.push(cell_bounds(r));
        weights.push(regions[k].size);
        k = k + 1;
        proof {
            assert(bounds@ =~= region_bounds(regions@).take(k as int));
            assert(weights@ =~= region_sizes(regions@).take(k as int));
        }
    }
    proof {
        assert(bounds@ =~= region_bounds(regions@));
        assert(weights@ =~= region_sizes(regions@));
    }
    let r = place_all(bounds.as_slice(), weights.as_slice(), names, sizes);
    proof {
        let bs = region_bounds(regions@);
        let order = choose|order: Seq<usize>|
            #[trigger] size_order(order, region_sizes(regions@)) && spots_of(r@) == place_run(
                bs,
                names@,
                sizes@,
                order,
                order.len() as int,
            ).spots;
        assert forall|i: int| 0 <= i < r@.len() implies (#[trigger] r@[i]).region < regions@.len() && spot_inside(
            spot_of(r@[i]),
            cell_bounds_of(regions@[r@[i].region as int].rect),
        ) by {
            assert(spots_of(r@)[i] == spot_of(r@[i]));
            law_labels_inside(bs, names@, sizes@, order, i);
        }
    }
    r
}

} // verus!
