//! Which tiles the treemap shows: in each directory its biggest entries plus
//! one tile standing for the rest, placed by the squarified layout, and
//! nested into directories whose tile is big enough, down to a depth limit.
use vstd::prelude::*;
use crate::arena::{lemma_nonempty_sub, nonempty, sizes_total, sorted_ids, Arena, Node, NodeId};
use crate::treemap::{is_blank, law_squarify_within, layout, lemma_wsum_mono, squarify, within, wsum, SubRect};

verus! {

/// Most entries one directory shows before the rest is aggregated.
pub const ITEM_LIMIT: u64 = 32;

/// Roughly how many pixels an entry needs to stay visible and clickable.
pub const PIXELS_PER_ITEM: u64 = 128;

/// An entry of one directory's layout: a child, or (`is_rest`) the directory
/// itself standing for its `rest_count` smaller entries of `size` bytes.
#[derive(Clone, Copy, Debug, PartialEq, Eq, Structural)]
pub struct Item {
    pub node: NodeId,
    pub size: u64,
    pub is_rest: bool,
    pub rest_count: u64,
}

/// A placed entry: the item, its rectangle, and the depth of the directory
/// it was laid out in.
#[derive(Clone, Copy, Debug, PartialEq, Eq, Structural)]
pub struct Tile {
    pub node: NodeId,
    pub rect: SubRect,
    pub is_rest: bool,
    pub rest_count: u64,
    pub size: u64,
    pub depth: u16,
}

/// How many entries a rectangle shows: one per `PIXELS_PER_ITEM` pixels, at
/// least 2 and at most `ITEM_LIMIT`.
pub open spec fn budget(rect: SubRect) -> int {
    let b = rect.spec_area() / (PIXELS_PER_ITEM as nat);
    if b < 2 {
        2
    } else if b > ITEM_LIMIT {
        ITEM_LIMIT as int
    } else {
        b as int
    }
}

/// The listed children as items.
pub open spec fn child_items(n: Seq<Node>, top: Seq<NodeId>) -> Seq<Item> {
    Seq::new(
        top.len(),
        |k: int| Item { node: top[k], size: n[top[k] as int].size, is_rest: false, rest_count: 0 },
    )
}

/// Where an item of size `v` goes in a list sorted biggest first: after
/// every entry from `i` on that is at least as big.
pub open spec fn slot(items: Seq<Item>, v: u64, i: int) -> int
    decreases items.len() - i,
{
    if i < 0 || i >= items.len() || items[i].size < v {
        i
    } else {
        slot(items, v, i + 1)
    }
}

/// The entries a directory shows with room for `limit` of them, biggest
/// first: its `limit` biggest non-empty children (equal sizes in tree order)
/// and, when more are left that hold any bytes, one aggregate of them, placed
/// after every child at least as big.
pub open spec fn items_at(n: Seq<Node>, node: NodeId, limit: int) -> Seq<Item> {
    let ids = nonempty(n, n[node as int].children@);
    let sorted = sorted_ids(n, ids);
    if limit <= 0 || ids.len() <= limit {
        child_items(n, sorted)
    } else {
        let top = sorted.take(limit);
        let kids = child_items(n, top);
        let rest = sizes_total(n, ids) - sizes_total(n, top);
        if rest > 0 {
            kids.insert(
                slot(kids, rest as u64, 0),
                Item { node, size: rest as u64, is_rest: true, rest_count: (ids.len() - limit) as u64 },
            )
        } else {
            kids
        }
    }
}

/// Layout weights: the sizes, an empty entry counting as one byte.
pub open spec fn weights_of(items: Seq<Item>) -> Seq<u64> {
    Seq::new(items.len(), |k: int| if items[k].size == 0 { 1u64 } else { items[k].size })
}

/// How many of the rectangles cover no pixel.
pub open spec fn blanks(rs: Seq<SubRect>) -> int
    decreases rs.len(),
{
    if rs.len() == 0 {
        0
    } else {
        blanks(rs.drop_last()) + if is_blank(rs.last()) { 1int } else { 0 }
    }
}

/// The weights of the entries shown with room for `limit` add up within `u64`.
pub open spec fn fits_at(n: Seq<Node>, node: NodeId, limit: int) -> bool {
    let w = weights_of(items_at(n, node, limit));
    wsum(w, w.len() as int) <= u64::MAX
}

/// The rectangles of the entries shown with room for `limit`.
pub open spec fn rects_at(n: Seq<Node>, node: NodeId, rect: SubRect, limit: int) -> Seq<SubRect> {
    layout(weights_of(items_at(n, node, limit)), 0, rect)
}

/// The room a directory's layout settles on, trying `limit` at attempt `a`
/// (of five): entries too small to get a pixel are folded into the aggregate
/// by lowering the room by their number (never below 2) and laying out again,
/// until none is left out, the room is 2, or the fifth attempt. -1 when the
/// weights do not add up within `u64`.
pub open spec fn settle(n: Seq<Node>, node: NodeId, rect: SubRect, limit: int, a: int) -> int
    decreases 4 - a,
{
    if !fits_at(n, node, limit) {
        -1
    } else {
        let dropped = blanks(rects_at(n, node, rect, limit));
        if a >= 4 || dropped == 0 || limit <= 2 {
            limit
        } else {
            settle(n, node, rect, if limit - dropped > 2 { limit - dropped } else { 2 }, a + 1)
        }
    }
}

/// The room a directory laid out in `rect` ends up with.
pub open spec fn settled(n: Seq<Node>, node: NodeId, rect: SubRect) -> int {
    settle(n, node, rect, budget(rect), 0)
}

/// The entries a directory shows in `rect`: those for the room it settles on.
pub open spec fn items_of(n: Seq<Node>, node: NodeId, rect: SubRect) -> Seq<Item> {
    items_at(n, node, settled(n, node, rect))
}

/// The rectangle a nested layout gets: one pixel less on every side.
pub open spec fn shrunk(r: SubRect) -> SubRect {
    SubRect { x: (r.x + 1) as u32, y: (r.y + 1) as u32, w: (r.w - 2) as u32, h: (r.h - 2) as u32 }
}

/// The tiles of `node`'s entries from the `k`-th on, laid out in `rect` at
/// `depth`: entries whose rectangle covers no pixel are skipped; each other
/// one gives a tile, followed, for a directory whose tile is at least 5 by 5
/// pixels while `depth + 1 < max_depth`, by the tiles of its own entries in
/// its tile less a one-pixel frame. A rectangle narrower or lower than 2
/// pixels, or weights that do not add up within `u64`, give no tiles.
pub open spec fn tiles_from(
    n: Seq<Node>,
    node: NodeId,
    rect: SubRect,
    depth: u16,
    max_depth: u16,
    k: int,
) -> Seq<Tile>
    decreases max_depth - depth, items_of(n, node, rect).len() - k,
{
    let items = items_of(n, node, rect);
    let w = weights_of(items);
    if rect.w < 2 || rect.h < 2 || settled(n, node, rect) < 0 || k < 0 || k >= items.len() {
        Seq::empty()
    } else {
        let it = items[k];
        let r = layout(w, 0, rect)[k];
        let later = tiles_from(n, node, rect, depth, max_depth, k + 1);
        if is_blank(r) {
            later
        } else {
            let t = Tile {
                node: it.node,
                rect: r,
                is_rest: it.is_rest,
                rest_count: it.rest_count,
                size: it.size,
                depth,
            };
            if !it.is_rest && depth + 1 < max_depth && n[it.node as int].is_dir && r.w >= 5 && r.h >= 5 {
                seq![t] + tiles_from(n, it.node, shrunk(r), (depth + 1) as u16, max_depth, 0) + later
            } else {
                seq![t] + later
            }
        }
    }
}

/// All tiles of `node` laid out in `rect` at `depth`, in drawing order.
pub open spec fn tiles_of(n: Seq<Node>, node: NodeId, rect: SubRect, depth: u16, max_depth: u16) -> Seq<Tile> {
    tiles_from(n, node, rect, depth, max_depth, 0)
}

/// The entries `node` shows with room for `limit` of them, biggest first.
pub fn shown_items(arena: &Arena, node: NodeId, limit: usize) -> (items: Vec<Item>)
    requires
        arena.wf(),
        (node as int) < arena.nodes@.len(),
    ensures
        items@ == items_at(arena.nodes@, node, limit as int),
        forall|j: int| 0 <= j < items@.len() ==> (#[trigger] items@[j].node as int) < arena.nodes@.len(),
{
    let ghost n = arena.nodes@;
    let ghost ids = nonempty(n, n[node as int].children@);
    proof {
        lemma_nonempty_sub(n, n[node as int].children@);
    }
    let (top, rest) = arena.top_children(node, limit);
    proof {
        assert forall|j: int| 0 <= j < top@.len() implies (#[trigger] top@[j] as int) < n.len() by {
            assert(top@.contains(top@[j]));
            assert(ids.contains(top@[j]));
            let q = choose|q: int| 0 <= q < ids.len() && ids[q] == top@[j];
            assert(n[node as int].children@.contains(ids[q]));
        }
    }
    let mut items: Vec<Item> = Vec::new();
    let mut k: usize = 0;
    while k < top.len()
        invariant
            n == arena.nodes@,
            0 <= k <= top@.len(),
            forall|j: int| 0 <= j < top@.len() ==> (#[trigger] top@[j] as int) < n.len(),
            items@ == child_items(n, top@.take(k as int)),
        decreases top@.len() - k,
    {
        let c = top[k];
        items.push(Item { node: c, size: arena.nodes[c as usize].size, is_rest: false, rest_count: 0 });
        proof {
            assert(items@ =~= child_items(n, top@.take(k as int + 1)));
        }
        k = k + 1;
    }
    proof {
        assert(top@.take(top@.len() as int) =~= top@);
    }
    let ghost kids = items@;
    if let Some((size, count, _files)) = rest {
        if size > 0 {
            let mut pos: usize = 0;
            while pos < items.len() && items[pos].size >= size
                invariant
                    items@ == kids,
                    0 <= pos <= kids.len(),
                    slot(kids, size, 0) == slot(kids, size, pos as int),
                decreases kids.len() - pos,
            {
                pos = pos + 1;
            }
            items.insert(pos, Item { node, size, is_rest: true, rest_count: count });
        }
    }
    items
}

/// The weights of `items` added up, or `None` when they do not fit `u64`.
fn weigh(items: &Vec<Item>) -> (r: Option<Vec<u64>>)
    ensures
        match r {
            Some(w) => w@ == weights_of(items@) && wsum(w@, w@.len() as int) <= u64::MAX,
            None => wsum(weights_of(items@), items@.len() as int) > u64::MAX,
        },
{
    let ghost w = weights_of(items@);
    let mut weights: Vec<u64> = Vec::new();
    let mut total: u64 = 0;
    let mut i: usize = 0;
    while i < items.len()
        invariant
            w == weights_of(items@),
            0 <= i <= items@.len(),
            weights@ == w.take(i as int),
            total == wsum(w, i as int),
        decreases items@.len() - i,
    {
        let s = items[i].size;
        let wi: u64 = if s == 0 { 1 } else { s };
        assert(w[i as int] == wi);
        if total > u64::MAX - wi {
            proof {
                lemma_wsum_mono(w, i as int + 1, w.len() as int);
            }
            return None;
        }
        total = total + wi;
        weights.push(wi);
        proof {
            assert(weights@ =~= w.take(i as int + 1));
        }
        i = i + 1;
    }
    proof {
        assert(weights@ =~= w);
    }
    Some(weights)
}

/// How many of `rects` cover no pixel.
fn count_blanks(rects: &Vec<SubRect>) -> (c: usize)
    ensures
        c == blanks(rects@),
        c <= rects@.len(),
{
    let mut c: usize = 0;
    let mut i: usize = 0;
    while i < rects.len()
        invariant
            0 <= i <= rects@.len(),
            c == blanks(rects@.take(i as int)),
            c <= i,
        decreases rects@.len() - i,
    {
        proof {
            assert(rects@.take(i as int + 1).drop_last() =~= rects@.take(i as int));
        }
        if rects[i].w == 0 || rects[i].h == 0 {
            c = c + 1;
        }
        i = i + 1;
    }
    proof {
        assert(rects@.take(rects@.len() as int) =~= rects@);
    }
    c
}

/// One directory's layout in `rect`: the entries for the room it settles on
/// (see `settle`) and their rectangles, or `None` when the weights do not add
/// up within `u64`.
pub fn settle_layout(arena: &Arena, node: NodeId, rect: SubRect) -> (r: Option<(Vec<Item>, Vec<SubRect>)>)
    requires
        arena.wf(),
        (node as int) < arena.nodes@.len(),
        rect.x + rect.w <= u32::MAX,
        rect.y + rect.h <= u32::MAX,
    ensures
        match r {
            None => settled(arena.nodes@, node, rect) < 0,
            Some((items, rects)) => {
                &&& settled(arena.nodes@, node, rect) >= 0
                &&& items@ == items_of(arena.nodes@, node, rect)
                &&& rects@ == layout(weights_of(items@), 0, rect)
                &&& rects@.len() == items@.len()
                &&& wsum(weights_of(items@), items@.len() as int) <= u64::MAX
                &&& forall|j: int| 0 <= j < items@.len() ==> (#[trigger] items@[j].node as int) < arena.nodes@.len()
            },
        },
{
    let ghost n = arena.nodes@;
    let a = rect.area() / PIXELS_PER_ITEM;
    let mut limit: usize = if a < 2 {
        2
    } else if a > ITEM_LIMIT {
        ITEM_LIMIT as usize
    } else {
        a as usize
    };
    let mut attempt: usize = 0;
    loop
        invariant
            n == arena.nodes@,
            arena.wf(),
            (node as int) < n.len(),
            rect.x + rect.w <= u32::MAX,
            rect.y + rect.h <= u32::MAX,
            attempt <= 4,
            2 <= limit <= ITEM_LIMIT,
            settled(n, node, rect) == settle(n, node, rect, limit as int, attempt as int),
        decreases 4 - attempt,
    {
        let items = shown_items(arena, node, limit);
        let weights = match weigh(&items) {
            Some(w) => w,
            None => {
                return None;
            },
        };
        let mut rects: Vec<SubRect> = Vec::new();
        squarify(weights.as_slice(), rect, &mut rects);
        let dropped = count_blanks(&rects);
        if attempt >= 4 || dropped == 0 || limit <= 2 {
            return Some((items, rects));
        }
        limit = if limit - 2 >= dropped { limit - dropped } else { 2 };
        attempt = attempt + 1;
    }
}

/// Lays out `node`'s entries in `rect` at `depth` and appends their tiles to
/// `out`, each followed by the tiles nested in it.
pub fn lay_tiles(arena: &Arena, node: NodeId, rect: SubRect, depth: u16, max_depth: u16, out: &mut Vec<Tile>)
    requires
        arena.wf(),
        (node as int) < arena.nodes@.len(),
        rect.x + rect.w <= u32::MAX,
        rect.y + rect.h <= u32::MAX,
    ensures
        final(out)@ == old(out)@ + tiles_of(arena.nodes@, node, rect, depth, max_depth),
    decreases max_depth - depth,
{
    let ghost n = arena.nodes@;
    let ghost out0 = out@;
    let ghost all = tiles_of(n, node, rect, depth, max_depth);
    if rect.w < 2 || rect.h < 2 {
        proof {
            assert(all =~= Seq::<Tile>::empty());
            assert(out@ =~= out0 + all);
        }
        return;
    }
    let (items, rects) = match settle_layout(arena, node, rect) {
        Some(laid) => laid,
        None => {
            proof {
                assert(all =~= Seq::<Tile>::empty());
                assert(out@ =~= out0 + all);
            }
            return;
        },
    };
    let ghost w = weights_of(items@);
    let mut k: usize = 0;
    while k < items.len()
        invariant
            n == arena.nodes@,
            arena.wf(),
            rect.x + rect.w <= u32::MAX,
            rect.y + rect.h <= u32::MAX,
            rect.w >= 2,
            rect.h >= 2,
            items@ == items_of(n, node, rect),
            forall|j: int| 0 <= j < items@.len() ==> (#[trigger] items@[j].node as int) < n.len(),
            w == weights_of(items@),
            wsum(w, w.len() as int) <= u64::MAX,
            settled(n, node, rect) >= 0,
            rects@ == layout(w, 0, rect),
            rects@.len() == items@.len(),
            0 <= k <= items@.len(),
            out@ + tiles_from(n, node, rect, depth, max_depth, k as int) == out0 + all,
        decreases items@.len() - k,
    {
        let r = rects[k];
        let it = items[k];
        let ghost before = out@;
        let ghost later = tiles_from(n, node, rect, depth, max_depth, k as int + 1);
        if r.w > 0 && r.h > 0 {
            let t = Tile { node: it.node, rect: r, is_rest: it.is_rest, rest_count: it.rest_count, size: it.size, depth };
            out.push(t);
            if !it.is_rest && (depth as u32) + 1 < max_depth as u32 && arena.nodes[it.node as usize].is_dir
                && r.w >= 5 && r.h >= 5 {
                proof {
                    law_squarify_within(w, rect, k as int);
                }
                let inner = r.inset(1);
                let ghost mid = out@;
                lay_tiles(arena, it.node, inner, depth + 1, max_depth, out);
                proof {
                    let sub = tiles_of(n, it.node, shrunk(r), (depth + 1) as u16, max_depth);
                    assert(out@ == before.push(t) + sub);
                    assert(tiles_from(n, node, rect, depth, max_depth, k as int) == seq![t] + sub + later);
                    assert(out@ + later =~= before + (seq![t] + sub + later));
                }
            } else {
                proof {
                    assert(tiles_from(n, node, rect, depth, max_depth, k as int) == seq![t] + later);
                    assert(out@ + later =~= before + (seq![t] + later));
                }
            }
        }
        k = k + 1;
    }
    proof {
        assert(tiles_from(n, node, rect, depth, max_depth, k as int) =~= Seq::<Tile>::empty());
        assert(out@ =~= out0 + all);
    }
}

/// All tiles of the treemap of `root` in `area`, in drawing order: each tile
/// is followed by the tiles nested in it, nesting at most `max_depth` levels.
pub fn tiles(arena: &Arena, root: NodeId, area: SubRect, max_depth: u16) -> (r: Vec<Tile>)
    requires
        arena.wf(),
        (root as int) < arena.nodes@.len(),
        area.x + area.w <= u32::MAX,
        area.y + area.h <= u32::MAX,
    ensures
        r@ == tiles_of(arena.nodes@, root, area, 0, max_depth),
{
    let mut out: Vec<Tile> = Vec::new();
    lay_tiles(arena, root, area, 0, max_depth, &mut out);
    proof {
        assert(out@ =~= tiles_of(arena.nodes@, root, area, 0, max_depth));
    }
    out
}

proof fn lemma_tiles_inside(n: Seq<Node>, node: NodeId, rect: SubRect, depth: u16, max_depth: u16, k: int)
    requires
        rect.x + rect.w <= u32::MAX,
        rect.y + rect.h <= u32::MAX,
    ensures
        forall|i: int|
            0 <= i < tiles_from(n, node, rect, depth, max_depth, k).len() ==> {
                let t = #[trigger] tiles_from(n, node, rect, depth, max_depth, k)[i];
                !is_blank(t.rect) && within(t.rect, rect)
            },
    decreases max_depth - depth, items_of(n, node, rect).len() - k,
{
    let items = items_of(n, node, rect);
    let w = weights_of(items);
    if rect.w < 2 || rect.h < 2 || settled(n, node, rect) < 0 || k < 0 || k >= items.len() {
    } else {
        lemma_tiles_inside(n, node, rect, depth, max_depth, k + 1);
        let it = items[k];
        let r = layout(w, 0, rect)[k];
        let later = tiles_from(n, node, rect, depth, max_depth, k + 1);
        if !is_blank(r) {
            law_squarify_within(w, rect, k);
            let t = Tile {
                node: it.node,
                rect: r,
                is_rest: it.is_rest,
                rest_count: it.rest_count,
                size: it.size,
                depth,
            };
            let all = tiles_from(n, node, rect, depth, max_depth, k);
            if !it.is_rest && depth + 1 < max_depth && n[it.node as int].is_dir && r.w >= 5 && r.h >= 5 {
                let d1 = (depth + 1) as u16;
                let inner = tiles_from(n, it.node, shrunk(r), d1, max_depth, 0);
                lemma_tiles_inside(n, it.node, shrunk(r), d1, max_depth, 0);
                assert(all == seq![t] + inner + later);
                assert forall|i: int| 0 <= i < all.len() implies !is_blank(#[trigger] all[i].rect) && within(all[i].rect, rect) by {
                    if i == 0 {
                        assert(all[i] == t);
                    } else if i < 1 + inner.len() {
                        assert(all[i] == inner[i - 1]);
                    } else {
                        assert(all[i] == later[i - 1 - inner.len()]);
                    }
                }
            } else {
                assert(all == seq![t] + later);
                assert forall|i: int| 0 <= i < all.len() implies !is_blank(#[trigger] all[i].rect) && within(all[i].rect, rect) by {
                    if i == 0 {
                        assert(all[i] == t);
                    } else {
                        assert(all[i] == later[i - 1]);
                    }
                }
            }
        }
    }
}

/// Law: every tile covers at least one pixel and lies inside the area the
/// treemap was laid out in; nested tiles included.
pub proof fn law_tiles_inside(n: Seq<Node>, node: NodeId, area: SubRect, max_depth: u16, i: int)
    requires
        area.x + area.w <= u32::MAX,
        area.y + area.h <= u32::MAX,
        0 <= i < tiles_of(n, node, area, 0, max_depth).len(),
    ensures
        !is_blank(tiles_of(n, node, area, 0, max_depth)[i].rect),
        within(tiles_of(n, node, area, 0, max_depth)[i].rect, area),
{
    lemma_tiles_inside(n, node, area, 0, max_depth, 0);
}

} // verus!
