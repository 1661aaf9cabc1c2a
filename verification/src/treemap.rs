//! Squarified treemap layout, in half-block "pixel" units.
use vstd::prelude::*;
use vstd::arithmetic::div_mod::{lemma_div_is_ordered, lemma_fundamental_div_mod_converse};

verus! {

/// A rectangle in pixel units (one pixel = one half-block subcell: 1 cell wide,
/// half a cell tall, i.e. roughly square on a normal terminal).
#[derive(Clone, Copy, Debug, PartialEq, Eq, Structural)]
pub struct SubRect {
    pub x: u32,
    pub y: u32,
    pub w: u32,
    pub h: u32,
}

impl Default for SubRect {
    fn default() -> (r: Self)
        ensures
            r == empty_rect(),
    {
        SubRect { x: 0, y: 0, w: 0, h: 0 }
    }
}

/// The rectangle `SubRect::default()` gives: no pixels, at the origin.
pub open spec fn empty_rect() -> SubRect {
    SubRect { x: 0, y: 0, w: 0, h: 0 }
}

impl SubRect {
    /// Number of pixels covered.
    pub open spec fn spec_area(self) -> nat {
        (self.w * self.h) as nat
    }

    /// Shrink by `n` pixels on every side; collapses to an empty rectangle at
    /// the same origin when the rectangle is too small.
    pub fn inset(self, n: u32) -> (r: Self)
        requires
            !(self.w <= 2 * n || self.h <= 2 * n) ==> self.x + n <= u32::MAX && self.y + n <= u32::MAX,
        ensures
            (self.w <= 2 * n || self.h <= 2 * n) ==> r == (SubRect { x: self.x, y: self.y, w: 0, h: 0 }),
            !(self.w <= 2 * n || self.h <= 2 * n) ==> r == (SubRect {
                x: (self.x + n) as u32,
                y: (self.y + n) as u32,
                w: (self.w - 2 * n) as u32,
                h: (self.h - 2 * n) as u32,
            }),
    {
        let twice: u32 = if n > u32::MAX / 2 { u32::MAX } else { n * 2 };
        if self.w <= twice || self.h <= twice {
            return SubRect { x: self.x, y: self.y, w: 0, h: 0 };
        }
        SubRect { x: self.x + n, y: self.y + n, w: self.w - twice, h: self.h - twice }
    }

    pub fn area(self) -> (a: u64)
        ensures
            a == self.spec_area(),
    {
        assert(self.w * self.h <= u32::MAX * u32::MAX) by (nonlinear_arith);
        self.w as u64 * self.h as u64
    }
}

/// Sum of the first `i` weights.
pub open spec fn wsum(w: Seq<u64>, i: int) -> int
    decreases i,
{
    if i <= 0 {
        0
    } else {
        wsum(w, i - 1) + w[i - 1]
    }
}

/// Sum of a sequence of slice widths.
pub open spec fn vsum(v: Seq<u32>) -> int
    decreases v.len(),
{
    if v.len() == 0 {
        0
    } else {
        vsum(v.drop_last()) + v.last()
    }
}

/// Rounded share of `total` owed to the first `i` weights.
pub open spec fn cum_share(w: Seq<u64>, total: int, i: int) -> int {
    let s = wsum(w, w.len() as int);
    (wsum(w, i) * total + s / 2) / s
}

/// Proportional slices before any slice is widened to one unit.
pub open spec fn base_shares(w: Seq<u64>, total: int) -> Seq<u32> {
    Seq::new(w.len(), |i: int| (cum_share(w, total, i + 1) - cum_share(w, total, i)) as u32)
}

/// Index of the last maximal entry among the first `k`.
pub open spec fn last_max(v: Seq<u32>, k: int) -> int
    decreases k,
{
    if k <= 1 {
        0
    } else {
        let m = last_max(v, k - 1);
        if v[k - 1] >= v[m] {
            k - 1
        } else {
            m
        }
    }
}

/// Widen every empty slice among the first `i` to one unit, taking it from the
/// widest slice when that one can spare it.
pub open spec fn fill_gaps(v: Seq<u32>, i: int) -> Seq<u32>
    decreases i,
{
    if i <= 0 {
        v
    } else {
        let u = fill_gaps(v, i - 1);
        if u[i - 1] == 0 {
            let j = last_max(u, u.len() as int);
            if u[j] > 1 {
                u.update(j, (u[j] - 1) as u32).update(i - 1, 1)
            } else {
                u
            }
        } else {
            u
        }
    }
}

/// What `distribute` hands back.
pub open spec fn distribute_spec(total: u32, w: Seq<u64>) -> Seq<u32> {
    if w.len() == 0 {
        Seq::empty()
    } else if wsum(w, w.len() as int) == 0 || total == 0 {
        Seq::new(w.len(), |i: int| 0u32)
    } else {
        fill_gaps(base_shares(w, total as int), w.len() as int)
    }
}

/// Weight sums only grow along the list.
pub proof fn lemma_wsum_mono(w: Seq<u64>, i: int, j: int)
    requires
        0 <= i <= j <= w.len(),
    ensures
        0 <= wsum(w, i) <= wsum(w, j),
    decreases j,
{
    if j > 0 && i < j {
        lemma_wsum_mono(w, i, j - 1);
    }
    if i > 0 {
        lemma_wsum_nonneg(w, i);
    }
}

proof fn lemma_wsum_nonneg(w: Seq<u64>, i: int)
    ensures
        wsum(w, i) >= 0,
    decreases i,
{
    if i > 0 {
        lemma_wsum_nonneg(w, i - 1);
    }
}

/// The cumulative shares grow from 0 to `total`.
proof fn lemma_cum_share(w: Seq<u64>, total: int, i: int, j: int)
    requires
        0 <= i <= j <= w.len(),
        wsum(w, w.len() as int) > 0,
        total >= 0,
    ensures
        cum_share(w, total, i) <= cum_share(w, total, j),
        cum_share(w, total, 0) == 0,
        cum_share(w, total, w.len() as int) == total,
        0 <= cum_share(w, total, i) <= total,
{
    let s = wsum(w, w.len() as int);
    lemma_wsum_mono(w, i, j);
    lemma_wsum_mono(w, j, w.len() as int);
    let a = wsum(w, i);
    let b = wsum(w, j);
    assert(a * total <= b * total) by (nonlinear_arith)
        requires
            0 <= a <= b,
            total >= 0,
    ;
    lemma_div_is_ordered(a * total + s / 2, b * total + s / 2, s);
    assert(0 <= s / 2 < s);
    lemma_fundamental_div_mod_converse(s / 2, s, 0, s / 2);
    lemma_fundamental_div_mod_converse(s * total + s / 2, s, total, s / 2);
    assert(s * total == total * s) by (nonlinear_arith);
    assert(0 <= a * total) by (nonlinear_arith)
        requires
            0 <= a,
            total >= 0,
    ;
    assert(a * total <= s * total) by (nonlinear_arith)
        requires
            0 <= a <= s,
            total >= 0,
    ;
    lemma_div_is_ordered(s / 2, a * total + s / 2, s);
    lemma_div_is_ordered(a * total + s / 2, s * total + s / 2, s);
}

proof fn lemma_vsum_update(v: Seq<u32>, j: int, x: u32)
    requires
        0 <= j < v.len(),
    ensures
        vsum(v.update(j, x)) == vsum(v) - v[j] + x,
    decreases v.len(),
{
    let u = v.update(j, x);
    if j == v.len() - 1 {
        assert(u.drop_last() =~= v.drop_last());
    } else {
        lemma_vsum_update(v.drop_last(), j, x);
        assert(u.drop_last() =~= v.drop_last().update(j, x));
    }
}

proof fn lemma_base_shares_sum(w: Seq<u64>, total: int, k: int)
    requires
        0 <= k <= w.len(),
        wsum(w, w.len() as int) > 0,
        0 <= total <= u32::MAX,
    ensures
        vsum(base_shares(w, total).take(k)) == cum_share(w, total, k),
    decreases k,
{
    let b = base_shares(w, total);
    lemma_cum_share(w, total, 0, k);
    if k > 0 {
        lemma_base_shares_sum(w, total, k - 1);
        assert(b.take(k).drop_last() =~= b.take(k - 1));
        lemma_cum_share(w, total, k - 1, k);
        assert(b.take(k).last() == b[k - 1]);
        let d = cum_share(w, total, k) - cum_share(w, total, k - 1);
        lemma_cum_share(w, total, k, k);
        assert(0 <= d <= u32::MAX);
        assert(b[k - 1] == d as u32);
        assert(b[k - 1] as int == cum_share(w, total, k) - cum_share(w, total, k - 1));
    } else {
        assert(b.take(0) =~= Seq::<u32>::empty());
    }
}

proof fn lemma_last_max(v: Seq<u32>, k: int)
    requires
        1 <= k <= v.len(),
    ensures
        0 <= last_max(v, k) < k,
        forall|i: int| 0 <= i < k ==> #[trigger] v[i] <= v[last_max(v, k)],
    decreases k,
{
    if k > 1 {
        lemma_last_max(v, k - 1);
    }
}

/// With every slice at most one unit wide and one of them empty, the total is
/// below the number of slices.
proof fn lemma_small_slices(v: Seq<u32>, z: int)
    requires
        0 <= z < v.len(),
        v[z] == 0,
        forall|i: int| 0 <= i < v.len() ==> v[i] <= 1,
    ensures
        vsum(v) <= v.len() - 1,
    decreases v.len(),
{
    if z < v.len() - 1 {
        lemma_small_slices(v.drop_last(), z);
    } else {
        lemma_vsum_bound(v.drop_last());
    }
}

proof fn lemma_vsum_bound(v: Seq<u32>)
    requires
        forall|i: int| 0 <= i < v.len() ==> v[i] <= 1,
    ensures
        vsum(v) <= v.len(),
    decreases v.len(),
{
    if v.len() > 0 {
        lemma_vsum_bound(v.drop_last());
    }
}

/// Filling gaps keeps the total, keeps every widened slice at least one unit
/// wide, and, when there are at least as many units as slices, leaves no slice empty.
proof fn lemma_fill_gaps(v: Seq<u32>, i: int)
    requires
        0 <= i <= v.len(),
    ensures
        fill_gaps(v, i).len() == v.len(),
        vsum(fill_gaps(v, i)) == vsum(v),
        vsum(v) >= v.len() ==> forall|k: int| 0 <= k < i ==> fill_gaps(v, i)[k] >= 1,
        forall|k: int| 0 <= k < v.len() && v[k] >= 1 ==> fill_gaps(v, i)[k] >= 1,
    decreases i,
{
    if i > 0 {
        lemma_fill_gaps(v, i - 1);
        let u = fill_gaps(v, i - 1);
        if u[i - 1] == 0 {
            let j = last_max(u, u.len() as int);
            lemma_last_max(u, u.len() as int);
            if u[j] > 1 {
                let u1 = u.update(j, (u[j] - 1) as u32);
                lemma_vsum_update(u, j, (u[j] - 1) as u32);
                lemma_vsum_update(u1, i - 1, 1);
            } else {
                if vsum(v) >= v.len() {
                    lemma_small_slices(u, i - 1);
                }
            }
        }
    }
}

/// Split `total` proportionally to `weights`, with no rounding drift and every
/// slice at least 1 unit wide (stealing from the biggest).
pub fn distribute(total: u32, weights: &[u64]) -> (out: Vec<u32>)
    requires
        wsum(weights@, weights@.len() as int) <= u64::MAX,
    ensures
        out@ == distribute_spec(total, weights@),
        out@.len() == weights@.len(),
        weights@.len() > 0 && wsum(weights@, weights@.len() as int) > 0 && total > 0 ==> vsum(out@)
            == total,
        weights@.len() > 0 && wsum(weights@, weights@.len() as int) > 0 && total >= weights@.len()
            ==> forall|i: int| 0 <= i < out@.len() ==> out@[i] > 0,
{
    let ghost w = weights@;
    let n = weights.len();
    let mut out: Vec<u32> = Vec::new();
    let mut i: usize = 0;
    while i < n
        invariant
            n == w.len(),
            0 <= i <= n,
            out@ =~= Seq::new(i as nat, |k: int| 0u32),
        decreases n - i,
    {
        out.push(0);
        i = i + 1;
    }
    if n == 0 {
        return out;
    }
    let mut sum: u64 = 0;
    let mut i: usize = 0;
    while i < n
        invariant
            n == w.len(),
            0 <= i <= n,
            w == weights@,
            wsum(w, n as int) <= u64::MAX,
            sum == wsum(w, i as int),
        decreases n - i,
    {
        proof {
            lemma_wsum_mono(w, i as int + 1, n as int);
        }
        sum = sum + weights[i];
        i = i + 1;
    }
    if sum == 0 || total == 0 {
        return out;
    }
    let ghost base = base_shares(w, total as int);
    let mut acc: u64 = 0;
    let mut prev: u128 = 0;
    proof {
        lemma_cum_share(w, total as int, 0, 0);
    }
    let mut i: usize = 0;
    while i < n
        invariant
            n == w.len(),
            0 <= i <= n,
            w == weights@,
            base == base_shares(w, total as int),
            sum == wsum(w, n as int),
            sum <= u64::MAX,
            sum > 0,
            total > 0,
            acc == wsum(w, i as int),
            prev == cum_share(w, total as int, i as int),
            out@.len() == n,
            forall|k: int| 0 <= k < i ==> out@[k] == base[k],
        decreases n - i,
    {
        proof {
            lemma_wsum_mono(w, i as int + 1, n as int);
            lemma_cum_share(w, total as int, i as int, i as int + 1);
        }
        acc = acc + weights[i];
        proof {
            assert(acc as int * total as int <= u64::MAX as int * u32::MAX as int) by (nonlinear_arith)
                requires
                    acc <= u64::MAX,
                    total <= u32::MAX,
            ;
        }
        let cum: u128 = (acc as u128 * total as u128 + (sum / 2) as u128) / sum as u128;
        proof {
            assert(cum == cum_share(w, total as int, i as int + 1));
            lemma_cum_share(w, total as int, i as int + 1, i as int + 1);
            assert(base[i as int] as int == cum - prev);
        }
        let share: u128 = if cum >= prev { cum - prev } else { 0 };
        out.set(i, share as u32);
        prev = cum;
        i = i + 1;
    }
    proof {
        assert(out@ =~= base);
        lemma_base_shares_sum(w, total as int, n as int);
        assert(base.take(n as int) =~= base);
    }
    // Rounding drift cannot survive the cumulative rounding, but correct for it
    // all the same.
    let mut assigned: u64 = 0;
    let mut i: usize = 0;
    while i < n
        invariant
            n == out@.len(),
            0 <= i <= n,
            vsum(out@) == total,
            assigned == vsum(out@.take(i as int)),
        decreases n - i,
    {
        proof {
            assert(out@.take(i as int + 1).drop_last() =~= out@.take(i as int));
            lemma_vsum_prefix(out@, i as int + 1);
        }
        assigned = assigned + out[i] as u64;
        i = i + 1;
    }
    proof {
        assert(out@.take(n as int) =~= out@);
    }
    let delta: i64 = total as i64 - assigned as i64;
    if delta != 0 {
        let last = n - 1;
        let v: i64 = out[last] as i64 + delta;
        out.set(last, if v < 0 { 0 } else { v as u32 });
    }
    let ghost filled = out@;
    let mut all_positive = true;
    let mut i: usize = 0;
    while i < n
        invariant
            n == out@.len(),
            0 <= i <= n,
            all_positive == forall|k: int| 0 <= k < i ==> out@[k] > 0,
        decreases n - i,
    {
        if out[i] == 0 {
            all_positive = false;
        }
        i = i + 1;
    }
    if all_positive {
        proof {
            lemma_fill_gaps_noop(out@, n as int);
        }
        return out;
    }
    let mut i: usize = 0;
    while i < n
        invariant
            n == out@.len(),
            n == filled.len(),
            0 <= i <= n,
            out@ == fill_gaps(filled, i as int),
        decreases n - i,
    {
        if out[i] == 0 {
            let mut j: usize = 0;
            let mut k: usize = 1;
            while k < n
                invariant
                    n == out@.len(),
                    1 <= k <= n,
                    j == last_max(out@, k as int),
                decreases n - k,
            {
                proof {
                    lemma_last_max(out@, k as int);
                }
                if out[k] >= out[j] {
                    j = k;
                }
                k = k + 1;
            }
            proof {
                lemma_last_max(out@, n as int);
            }
            if out[j] > 1 {
                let shrunk = out[j] - 1;
                out.set(j, shrunk);
                out.set(i, 1);
            }
        }
        i = i + 1;
    }
    proof {
        lemma_fill_gaps(filled, n as int);
    }
    out
}

proof fn lemma_vsum_prefix(v: Seq<u32>, k: int)
    requires
        0 <= k <= v.len(),
    ensures
        0 <= vsum(v.take(k)) <= vsum(v),
{
    let a = v.take(k);
    let b = v.skip(k);
    assert(v =~= a + b);
    lemma_vsum_concat(a, b);
    lemma_vsum_nonneg(a);
    lemma_vsum_nonneg(b);
}

proof fn lemma_vsum_nonneg(v: Seq<u32>)
    ensures
        vsum(v) >= 0,
    decreases v.len(),
{
    if v.len() > 0 {
        lemma_vsum_nonneg(v.drop_last());
    }
}

proof fn lemma_vsum_concat(a: Seq<u32>, b: Seq<u32>)
    ensures
        vsum(a + b) == vsum(a) + vsum(b),
    decreases b.len(),
{
    if b.len() > 0 {
        lemma_vsum_concat(a, b.drop_last());
        assert((a + b).drop_last() =~= a + b.drop_last());
    } else {
        assert(a + b =~= a);
    }
}

proof fn lemma_fill_gaps_noop(v: Seq<u32>, i: int)
    requires
        0 <= i <= v.len(),
        forall|k: int| 0 <= k < v.len() ==> v[k] > 0,
    ensures
        fill_gaps(v, i) == v,
    decreases i,
{
    if i > 0 {
        lemma_fill_gaps_noop(v, i - 1);
    }
}

/// Fixed-point scale used when comparing aspect ratios.
pub const ASPECT_SCALE: u128 = 16777216;

/// Stand-in for "no row measured yet": larger than any aspect ratio.
pub const NO_ASPECT: u128 = 340282366920938463463374607431768211455;

/// Sum of the weights from index `i` on.
pub open spec fn rem_sum(w: Seq<u64>, i: int) -> int {
    wsum(w, w.len() as int) - wsum(w, i)
}

/// `a / b` rounded to the nearest integer, halves away from zero (`a >= 0`, `b > 0`).
pub open spec fn round_div(a: int, b: int) -> int {
    (2 * a + b) / (2 * b)
}

/// Thickness of a row holding weight `ns` out of `rem`, across a side of length `other`.
pub open spec fn row_thickness(ns: int, other: int, rem: int) -> int {
    let t = round_div(ns * other, rem);
    if t < 1 {
        1
    } else {
        t
    }
}

/// Aspect ratio (long side over short side, scaled by `ASPECT_SCALE`) of an
/// item of weight `wk` in a row of weight `ns`, length `side` and thickness `t`.
/// The item's length is never taken below one pixel.
pub open spec fn aspect(wk: int, ns: int, side: int, t: int) -> int {
    if wk * side <= ns {
        t * ASPECT_SCALE
    } else {
        let a = (wk * side * ASPECT_SCALE) / (ns * t);
        let b = (t * ns * ASPECT_SCALE) / (wk * side);
        if a >= b {
            a
        } else {
            b
        }
    }
}

/// Worst aspect ratio among items `i ..= i + k` of a row.
pub open spec fn worst_aspect(w: Seq<u64>, i: int, k: int, ns: int, side: int, t: int) -> int
    decreases k,
{
    if k <= 0 {
        if k == 0 {
            aspect(w[i] as int, ns, side, t)
        } else {
            0
        }
    } else {
        let prev = worst_aspect(w, i, k - 1, ns, side, t);
        let a = aspect(w[i + k] as int, ns, side, t);
        if a > prev {
            a
        } else {
            prev
        }
    }
}

/// How many items the row starting at `i` takes: it keeps growing while the
/// worst aspect ratio does not get worse.
pub open spec fn row_len(
    w: Seq<u64>,
    i: int,
    side: int,
    other: int,
    rem: int,
    count: int,
    row_sum: int,
    best: int,
) -> int
    decreases w.len() - i - count,
{
    if count < 0 || i + count >= w.len() {
        count
    } else {
        let ns = row_sum + w[i + count];
        let t = row_thickness(ns, other, rem);
        let worst = worst_aspect(w, i, count, ns, side, t);
        if worst <= best {
            row_len(w, i, side, other, rem, count + 1, ns, worst)
        } else {
            count
        }
    }
}

/// Offsets of the slices in `v`.
pub open spec fn offsets(v: Seq<u32>, k: int) -> int {
    vsum(v.take(k))
}

/// Rectangles of one row laid along the left edge (`vertical`) or the top
/// edge of `rect`, with thickness `ext`.
pub open spec fn row_rects(rect: SubRect, vertical: bool, ext: int, slices: Seq<u32>) -> Seq<SubRect> {
    Seq::new(
        slices.len(),
        |k: int|
            if vertical {
                SubRect { x: rect.x, y: (rect.y + offsets(slices, k)) as u32, w: ext as u32, h: slices[k] }
            } else {
                SubRect { x: (rect.x + offsets(slices, k)) as u32, y: rect.y, w: slices[k], h: ext as u32 }
            },
    )
}

/// Number of items in the row that starts at `i` inside `rect`.
pub open spec fn row_count(w: Seq<u64>, i: int, rect: SubRect) -> int {
    let vertical = rect.w >= rect.h;
    let side: int = if vertical { rect.h as int } else { rect.w as int };
    let other: int = if vertical { rect.w as int } else { rect.h as int };
    let c = row_len(w, i, side, other, rem_sum(w, i), 0, 0, NO_ASPECT as int);
    if c == 0 {
        1
    } else {
        c
    }
}

/// Thickness of the row of `c` items starting at `i` inside `rect`.
pub open spec fn row_extent(w: Seq<u64>, i: int, c: int, rect: SubRect) -> int {
    let vertical = rect.w >= rect.h;
    let other: int = if vertical { rect.w as int } else { rect.h as int };
    if i + c >= w.len() {
        other
    } else {
        let e = round_div((wsum(w, i + c) - wsum(w, i)) * other, rem_sum(w, i));
        if e < 1 {
            1
        } else if e > other {
            other
        } else {
            e
        }
    }
}

/// What remains of `rect` after a row of thickness `ext` was cut off.
pub open spec fn rest_rect(rect: SubRect, ext: int) -> SubRect {
    if rect.w >= rect.h {
        SubRect { x: (rect.x + ext) as u32, y: rect.y, w: (rect.w - ext) as u32, h: rect.h }
    } else {
        SubRect { x: rect.x, y: (rect.y + ext) as u32, w: rect.w, h: (rect.h - ext) as u32 }
    }
}

/// Rectangles for items `i..` inside `rect`: one row at a time along the
/// shorter side, then the rest of the rectangle for the remaining items.
pub open spec fn layout(w: Seq<u64>, i: int, rect: SubRect) -> Seq<SubRect>
    decreases w.len() - i,
{
    if i >= w.len() || i < 0 {
        Seq::empty()
    } else if rect.w == 0 || rect.h == 0 || rem_sum(w, i) == 0 {
        Seq::new((w.len() - i) as nat, |k: int| empty_rect())
    } else {
        let c = row_count(w, i, rect);
        if c < 1 || i + c > w.len() {
            Seq::empty()
        } else {
            let vertical = rect.w >= rect.h;
            let ext = row_extent(w, i, c, rect);
            let slices = distribute_spec(
                if vertical { rect.h } else { rect.w },
                w.subrange(i, i + c),
            );
            row_rects(rect, vertical, ext, slices) + layout(w, i + c, rest_rect(rect, ext))
        }
    }
}

fn round_div_exec(a: u128, b: u128) -> (r: u128)
    requires
        b > 0,
        a <= 0x1_0000_0000_0000_0000_0000_0000_0000,
        b <= 0x1_0000_0000_0000_0000,
    ensures
        r == round_div(a as int, b as int),
{
    (2 * a + b) / (2 * b)
}

fn aspect_exec(wk: u64, ns: u64, side: u32, t: u128) -> (r: u128)
    requires
        wk <= ns,
        1 <= side,
        1 <= t <= 0x2_0000_0000,
    ensures
        r == aspect(wk as int, ns as int, side as int, t as int),
{
    proof {
        assert(wk as int * side as int <= u64::MAX as int * u32::MAX as int) by (nonlinear_arith)
            requires
                wk <= u64::MAX,
                side <= u32::MAX,
        ;
    }
    let ws: u128 = wk as u128 * side as u128;
    if ws <= ns as u128 {
        t * ASPECT_SCALE
    } else {
        proof {
            if ns == 0 {
                assert(wk == 0);
                assert(ws == 0);
            }
            assert(ws as int * ASPECT_SCALE as int <= 0x1_0000_0000_0000_0000_0000_0000 * 16777216) by (nonlinear_arith)
                requires
                    ws <= 0x1_0000_0000_0000_0000_0000_0000,
            ;
            assert(ns as int * t as int <= u64::MAX as int * 0x2_0000_0000) by (nonlinear_arith)
                requires
                    ns <= u64::MAX,
                    t <= 0x2_0000_0000,
            ;
            assert(t as int * ns as int <= 0x2_0000_0000 * u64::MAX as int) by (nonlinear_arith)
                requires
                    ns <= u64::MAX,
                    t <= 0x2_0000_0000,
            ;
            assert(t as int * ns as int * ASPECT_SCALE as int <= 0x2_0000_0000 * u64::MAX as int * 16777216) by (nonlinear_arith)
                requires
                    t as int * ns as int <= 0x2_0000_0000 * u64::MAX as int,
            ;
            assert(ns as int * t as int >= 1) by (nonlinear_arith)
                requires
                    ns >= 1,
                    t >= 1,
            ;
        }
        let a = ws * ASPECT_SCALE / (ns as u128 * t);
        let b = t * ns as u128 * ASPECT_SCALE / ws;
        if a >= b {
            a
        } else {
            b
        }
    }
}

proof fn lemma_wsum_subrange(w: Seq<u64>, a: int, b: int)
    requires
        0 <= a <= b <= w.len(),
    ensures
        wsum(w.subrange(a, b), b - a) == wsum(w, b) - wsum(w, a),
    decreases b - a,
{
    if b > a {
        lemma_wsum_subrange(w, a, b - 1);
        let s = w.subrange(a, b);
        assert(wsum(s, b - a - 1) == wsum(w.subrange(a, b - 1), b - a - 1)) by {
            lemma_wsum_prefix_eq(s, w.subrange(a, b - 1), b - a - 1);
        }
    }
}

proof fn lemma_wsum_prefix_eq(s1: Seq<u64>, s2: Seq<u64>, k: int)
    requires
        0 <= k <= s1.len(),
        k <= s2.len(),
        forall|j: int| 0 <= j < k ==> s1[j] == s2[j],
    ensures
        wsum(s1, k) == wsum(s2, k),
    decreases k,
{
    if k > 0 {
        lemma_wsum_prefix_eq(s1, s2, k - 1);
    }
}

/// One weight never exceeds a range of weights that contains it.
proof fn lemma_weight_le_range(w: Seq<u64>, a: int, j: int, b: int)
    requires
        0 <= a <= j < b <= w.len(),
    ensures
        w[j] <= wsum(w, b) - wsum(w, a),
{
    lemma_wsum_mono(w, a, j);
    lemma_wsum_mono(w, j + 1, b);
}

proof fn lemma_row_len_bounds(w: Seq<u64>, i: int, side: int, other: int, rem: int, count: int, row_sum: int, best: int)
    requires
        0 <= i,
        0 <= count,
        i + count <= w.len(),
    ensures
        count <= row_len(w, i, side, other, rem, count, row_sum, best) <= w.len() - i,
    decreases w.len() - i - count,
{
    if i + count < w.len() {
        let ns = row_sum + w[i + count];
        let t = row_thickness(ns, other, rem);
        let worst = worst_aspect(w, i, count, ns, side, t);
        if worst <= best {
            lemma_row_len_bounds(w, i, side, other, rem, count + 1, ns, worst);
        }
    }
}

proof fn lemma_vsum_zeros(n: nat)
    ensures
        vsum(Seq::new(n, |k: int| 0u32)) == 0,
    decreases n,
{
    if n > 0 {
        lemma_vsum_zeros((n - 1) as nat);
        assert(Seq::new(n, |k: int| 0u32).drop_last() =~= Seq::new((n - 1) as nat, |k: int| 0u32));
    }
}

/// The slices never add up to more than what was split.
proof fn lemma_distribute_total(total: u32, w: Seq<u64>)
    ensures
        distribute_spec(total, w).len() == w.len(),
        vsum(distribute_spec(total, w)) <= total,
        w.len() > 0 && wsum(w, w.len() as int) > 0 && total > 0 ==> vsum(distribute_spec(total, w)) == total,
{
    lemma_wsum_nonneg(w, w.len() as int);
    if w.len() == 0 {
    } else if wsum(w, w.len() as int) == 0 || total == 0 {
        lemma_vsum_zeros(w.len());
    } else {
        let b = base_shares(w, total as int);
        lemma_base_shares_sum(w, total as int, w.len() as int);
        lemma_cum_share(w, total as int, 0, w.len() as int);
        assert(b.take(w.len() as int) =~= b);
        lemma_fill_gaps(b, w.len() as int);
    }
}

proof fn lemma_layout_len(w: Seq<u64>, i: int, rect: SubRect)
    requires
        0 <= i <= w.len(),
    ensures
        layout(w, i, rect).len() == w.len() - i,
    decreases w.len() - i,
{
    if i < w.len() && !(rect.w == 0 || rect.h == 0 || rem_sum(w, i) == 0) {
        let vertical = rect.w >= rect.h;
        let side: int = if vertical { rect.h as int } else { rect.w as int };
        let other: int = if vertical { rect.w as int } else { rect.h as int };
        lemma_row_len_bounds(w, i, side, other, rem_sum(w, i), 0, 0, NO_ASPECT as int);
        let c = row_count(w, i, rect);
        let ext = row_extent(w, i, c, rect);
        lemma_distribute_total(if vertical { rect.h } else { rect.w }, w.subrange(i, i + c));
        lemma_layout_len(w, i + c, rest_rect(rect, ext));
    }
}

/// Squarified layout of `weights` (descending, all > 0) into `area`.
/// Writes exactly `weights.len()` rectangles, in input order. With no
/// weights or an area without pixels nothing is added up or placed, and
/// weights that add up to 0 give empty rectangles wherever the area lies.
pub fn squarify(weights: &[u64], area: SubRect, out: &mut Vec<SubRect>)
    requires
        weights@.len() > 0 && area.w > 0 && area.h > 0 ==> wsum(weights@, weights@.len() as int) <= u64::MAX,
        weights@.len() > 0 && area.w > 0 && area.h > 0 && wsum(weights@, weights@.len() as int) > 0 ==> {
            &&& area.x + area.w <= u32::MAX
            &&& area.y + area.h <= u32::MAX
        },
    ensures
        final(out)@ == layout(weights@, 0, area),
        final(out)@.len() == weights@.len(),
{
    let ghost w = weights@;
    let ghost target = layout(w, 0, area);
    proof {
        lemma_layout_len(w, 0, area);
    }
    out.clear();
    let n = weights.len();
    if n == 0 {
        return;
    }
    if area.w == 0 || area.h == 0 {
        proof {
            assert(layout(w, 0, area) == Seq::new(n as nat, |k: int| empty_rect()));
        }
        pad_empty(out, n);
        return;
    }
    let mut total: u64 = 0;
    let mut i: usize = 0;
    while i < n
        invariant
            n == w.len(),
            w == weights@,
            0 <= i <= n,
            wsum(w, n as int) <= u64::MAX,
            total == wsum(w, i as int),
        decreases n - i,
    {
        proof {
            lemma_wsum_mono(w, i as int + 1, n as int);
        }
        total = total + weights[i];
        i = i + 1;
    }
    if area.w == 0 || area.h == 0 || total == 0 {
        pad_empty(out, n);
        return;
    }
    let mut rect = area;
    let mut i: usize = 0;
    let mut done_sum: u64 = 0;
    while i < n
        invariant
            n == w.len(),
            w == weights@,
            target == layout(w, 0, area),
            target.len() == n,
            0 <= i <= n,
            total == wsum(w, n as int),
            done_sum == wsum(w, i as int),
            rect.x + rect.w <= u32::MAX,
            rect.y + rect.h <= u32::MAX,
            out@ + layout(w, i as int, rect) == target,
            out@.len() == i,
        decreases n - i,
    {
        proof {
            lemma_layout_len(w, i as int, rect);
            lemma_wsum_mono(w, i as int, n as int);
        }
        let rem: u64 = total - done_sum;
        if rect.w == 0 || rect.h == 0 || rem == 0 {
            proof {
                assert(layout(w, i as int, rect) == Seq::new((n - i) as nat, |k: int| empty_rect()));
            }
            pad_empty(out, n);
            return;
        }
        let vertical = rect.w >= rect.h;
        let side: u32 = if vertical { rect.h } else { rect.w };
        let other: u32 = if vertical { rect.w } else { rect.h };
        let ghost target_len = row_len(w, i as int, side as int, other as int, rem as int, 0, 0, NO_ASPECT as int);
        // Grow the current row while the worst aspect ratio keeps improving.
        let mut row_sum: u64 = 0;
        let mut count: usize = 0;
        let mut best: u128 = NO_ASPECT;
        let mut growing = true;
        while growing && i + count < n
            invariant
                n == w.len(),
                w == weights@,
                0 <= i < n,
                i + count <= n,
                1 <= side,
                rem == rem_sum(w, i as int),
                rem > 0,
                total == wsum(w, n as int),
                done_sum == wsum(w, i as int),
                row_sum == wsum(w, i + count) - wsum(w, i as int),
                row_len(w, i as int, side as int, other as int, rem as int, count as int, row_sum as int, best as int) == target_len,
                !growing ==> target_len == count,
            decreases n - i - count, if growing { 1int } else { 0int },
        {
            proof {
                lemma_wsum_mono(w, i + count + 1, n as int);
                lemma_wsum_mono(w, i as int, i + count);
            }
            let ns: u64 = row_sum + weights[i + count];
            proof {
                assert(ns as int * other as int <= u64::MAX as int * u32::MAX as int) by (nonlinear_arith)
                    requires
                        ns <= u64::MAX,
                        other <= u32::MAX,
                ;
                assert(ns as int * other as int <= rem as int * other as int) by (nonlinear_arith)
                    requires
                        ns <= rem,
                ;
                assert((2 * (ns as int * other as int) + rem as int) / (2 * rem as int) <= other as int) by (nonlinear_arith)
                    requires
                        ns as int * other as int <= rem as int * other as int,
                        rem > 0,
                {
                    assert((2 * (ns as int * other as int) + (rem as int)) < (2 * (other as int) + 2) * (rem as int));
                }
            }
            let tr = round_div_exec(ns as u128 * other as u128, rem as u128);
            let t: u128 = if tr < 1 { 1 } else { tr };
            let mut worst: u128 = 0;
            let mut k: usize = 0;
            while k <= count
                invariant
                    n == w.len(),
                    w == weights@,
                    i + count < n,
                    0 <= k <= count + 1,
                    1 <= side,
                    1 <= t <= 0x2_0000_0000,
                    ns == wsum(w, i + count + 1) - wsum(w, i as int),
                    worst == if k == 0 { 0 } else { worst_aspect(w, i as int, k - 1, ns as int, side as int, t as int) },
                decreases count + 1 - k,
            {
                proof {
                    lemma_weight_le_range(w, i as int, i + k, i + count + 1);
                }
                let a = aspect_exec(weights[i + k], ns, side, t);
                if a > worst {
                    worst = a;
                }
                k = k + 1;
            }
            if worst <= best {
                best = worst;
                row_sum = ns;
                count = count + 1;
            } else {
                growing = false;
            }
        }
        proof {
            lemma_row_len_bounds(w, i as int, side as int, other as int, rem as int, 0, 0, NO_ASPECT as int);
        }
        if count == 0 {
            count = 1;
            proof {
                lemma_wsum_mono(w, i as int + 1, n as int);
            }
            row_sum = weights[i];
        }
        let ghost c = count as int;
        proof {
            assert(c == row_count(w, i as int, rect));
            lemma_wsum_mono(w, i as int, i + c);
            lemma_wsum_mono(w, i + c, n as int);
        }
        let last_row = i + count >= n;
        let ext: u32 = if last_row {
            other
        } else {
            proof {
                assert(row_sum as int * other as int <= rem as int * other as int) by (nonlinear_arith)
                    requires
                        row_sum <= rem,
                ;
                assert(row_sum as int * other as int <= u64::MAX as int * u32::MAX as int) by (nonlinear_arith)
                    requires
                        row_sum <= u64::MAX,
                        other <= u32::MAX,
                ;
            }
            let e = round_div_exec(row_sum as u128 * other as u128, rem as u128);
            if e < 1 {
                1
            } else if e > other as u128 {
                other
            } else {
                e as u32
            }
        };
        proof {
            assert(ext as int == row_extent(w, i as int, c, rect));
        }
        let row = &weights[i..i + count];
        proof {
            lemma_wsum_subrange(w, i as int, i + c);
            assert(row@ == w.subrange(i as int, i + c));
        }
        let slices = distribute(side, row);
        proof {
            lemma_distribute_total(side, row@);
        }
        let ghost out0 = out@;
        let ghost rr = row_rects(rect, vertical, ext as int, slices@);
        let mut off: u32 = 0;
        let mut k: usize = 0;
        while k < count
            invariant
                slices@.len() == count,
                vsum(slices@) <= side,
                rect.x + rect.w <= u32::MAX,
                rect.y + rect.h <= u32::MAX,
                side == if vertical { rect.h } else { rect.w },
                ext <= other,
                other == if vertical { rect.w } else { rect.h },
                rr == row_rects(rect, vertical, ext as int, slices@),
                0 <= k <= count,
                off == offsets(slices@, k as int),
                out@ == out0 + rr.take(k as int),
            decreases count - k,
        {
            proof {
                lemma_vsum_prefix(slices@, k as int + 1);
                assert(slices@.take(k as int + 1).drop_last() =~= slices@.take(k as int));
                assert(rr.take(k as int + 1) =~= rr.take(k as int).push(rr[k as int]));
            }
            let piece = slices[k];
            if vertical {
                out.push(SubRect { x: rect.x, y: rect.y + off, w: ext, h: piece });
            } else {
                out.push(SubRect { x: rect.x + off, y: rect.y, w: piece, h: ext });
            }
            off = off + piece;
            k = k + 1;
        }
        proof {
            assert(rr.take(count as int) =~= rr);
        }
        if vertical {
            rect.x = rect.x + ext;
            rect.w = rect.w - ext;
        } else {
            rect.y = rect.y + ext;
            rect.h = rect.h - ext;
        }
        i = i + count;
        done_sum = done_sum + row_sum;
    }
}

/// Append empty rectangles until `out` holds `n` of them.
fn pad_empty(out: &mut Vec<SubRect>, n: usize)
    requires
        old(out)@.len() <= n,
    ensures
        final(out)@ == old(out)@ + Seq::new((n - old(out)@.len()) as nat, |k: int| empty_rect()),
{
    let ghost o = out@;
    while out.len() < n
        invariant
            o.len() <= out@.len() <= n,
            out@ == o + Seq::new((out@.len() - o.len()) as nat, |k: int| empty_rect()),
        decreases n - out@.len(),
    {
        out.push(SubRect { x: 0, y: 0, w: 0, h: 0 });
        proof {
            assert(out@ =~= o + Seq::new((out@.len() - o.len()) as nat, |k: int| empty_rect()));
        }
    }
}

/// The rectangle covers no pixel.
pub open spec fn is_blank(r: SubRect) -> bool {
    r.w == 0 || r.h == 0
}

/// `r` lies inside `a`.
pub open spec fn within(r: SubRect, a: SubRect) -> bool {
    &&& a.x <= r.x
    &&& r.x + r.w <= a.x + a.w
    &&& a.y <= r.y
    &&& r.y + r.h <= a.y + a.h
}

/// `r` and `s` share no pixel.
pub open spec fn apart(r: SubRect, s: SubRect) -> bool {
    ||| is_blank(r)
    ||| is_blank(s)
    ||| r.x + r.w <= s.x
    ||| s.x + s.w <= r.x
    ||| r.y + r.h <= s.y
    ||| s.y + s.h <= r.y
}

/// Pixels covered by all rectangles together, counting overlaps twice.
pub open spec fn total_area(v: Seq<SubRect>) -> int
    decreases v.len(),
{
    if v.len() == 0 {
        0
    } else {
        total_area(v.drop_last()) + v.last().w * v.last().h
    }
}

proof fn lemma_total_area_concat(a: Seq<SubRect>, b: Seq<SubRect>)
    ensures
        total_area(a + b) == total_area(a) + total_area(b),
    decreases b.len(),
{
    if b.len() > 0 {
        lemma_total_area_concat(a, b.drop_last());
        assert((a + b).drop_last() =~= a + b.drop_last());
    } else {
        assert(a + b =~= a);
    }
}

proof fn lemma_total_area_blank(v: Seq<SubRect>)
    requires
        forall|k: int| 0 <= k < v.len() ==> is_blank(#[trigger] v[k]),
    ensures
        total_area(v) == 0,
    decreases v.len(),
{
    if v.len() > 0 {
        lemma_total_area_blank(v.drop_last());
        let l = v.last();
        assert(is_blank(v[v.len() - 1]));
        assert(l.w * l.h == 0) by (nonlinear_arith)
            requires
                l.w == 0 || l.h == 0,
        ;
    }
}

proof fn lemma_offsets(v: Seq<u32>, k: int, j: int)
    requires
        0 <= k < j <= v.len(),
    ensures
        offsets(v, k + 1) == offsets(v, k) + v[k],
        offsets(v, k + 1) <= offsets(v, j),
        offsets(v, j) <= vsum(v),
        0 <= offsets(v, k),
{
    assert(v.take(k + 1).drop_last() =~= v.take(k));
    lemma_vsum_prefix(v.take(j), k + 1);
    assert(v.take(j).take(k + 1) =~= v.take(k + 1));
    lemma_vsum_prefix(v, j);
    lemma_vsum_prefix(v, k);
}

proof fn lemma_row_rects_area(r: SubRect, vertical: bool, ext: int, s: Seq<u32>)
    requires
        0 <= ext <= u32::MAX,
    ensures
        total_area(row_rects(r, vertical, ext, s)) == ext * vsum(s),
    decreases s.len(),
{
    if s.len() > 0 {
        let s0 = s.drop_last();
        lemma_row_rects_area(r, vertical, ext, s0);
        let rr = row_rects(r, vertical, ext, s);
        assert forall|k: int| 0 <= k < s0.len() implies offsets(s0, k) == offsets(s, k) by {
            assert(s0.take(k) =~= s.take(k));
        }
        assert(rr.drop_last() =~= row_rects(r, vertical, ext, s0));
        let x = s.last() as int;
        let v0 = vsum(s0);
        assert(ext * (v0 + x) == ext * v0 + ext * x) by (nonlinear_arith);
        assert(rr.last().w * rr.last().h == ext * x) by (nonlinear_arith)
            requires
                (rr.last().w == ext && rr.last().h == x) || (rr.last().w == x && rr.last().h == ext),
        ;
    }
}

/// Geometry of a layout: every covering rectangle lies inside the area, no two
/// rectangles overlap, and with positive weights the pixels add up to the area.
proof fn lemma_layout_geometry(w: Seq<u64>, i: int, r: SubRect)
    requires
        0 <= i <= w.len(),
        r.x + r.w <= u32::MAX,
        r.y + r.h <= u32::MAX,
    ensures
        forall|k: int|
            0 <= k < layout(w, i, r).len() && !is_blank(#[trigger] layout(w, i, r)[k]) ==> within(
                layout(w, i, r)[k],
                r,
            ),
        forall|k: int, j: int|
            0 <= k < j < layout(w, i, r).len() ==> apart(#[trigger] layout(w, i, r)[k], #[trigger] layout(w, i, r)[j]),
        (forall|m: int| i <= m < w.len() ==> w[m] > 0) && i < w.len() && !is_blank(r) ==> total_area(layout(w, i, r))
            == r.w * r.h,
    decreases w.len() - i,
{
    let l = layout(w, i, r);
    lemma_layout_len(w, i, r);
    if i >= w.len() {
    } else if r.w == 0 || r.h == 0 || rem_sum(w, i) == 0 {
        if (forall|m: int| i <= m < w.len() ==> w[m] > 0) && !is_blank(r) {
            lemma_weight_le_range(w, i, i, w.len() as int);
        }
    } else {
        let vertical = r.w >= r.h;
        let side: int = if vertical { r.h as int } else { r.w as int };
        let other: int = if vertical { r.w as int } else { r.h as int };
        lemma_row_len_bounds(w, i, side, other, rem_sum(w, i), 0, 0, NO_ASPECT as int);
        let c = row_count(w, i, r);
        let ext = row_extent(w, i, c, r);
        let rw = w.subrange(i, i + c);
        let slices = distribute_spec(if vertical { r.h } else { r.w }, rw);
        lemma_distribute_total(if vertical { r.h } else { r.w }, rw);
        let rest = rest_rect(r, ext);
        let rr = row_rects(r, vertical, ext, slices);
        let l2 = layout(w, i + c, rest);
        lemma_layout_geometry(w, i + c, rest);
        lemma_layout_len(w, i + c, rest);
        assert(l == rr + l2);
        assert(0 <= ext <= other);
        // Each rectangle of the row lies in the strip cut off the area.
        assert forall|k: int| 0 <= k < c implies {
            &&& within(#[trigger] rr[k], r)
            &&& (vertical ==> rr[k].x == r.x && rr[k].x + rr[k].w == r.x + ext)
            &&& (!vertical ==> rr[k].y == r.y && rr[k].y + rr[k].h == r.y + ext)
        } by {
            lemma_offsets(slices, k, c);
        }
        assert forall|k: int, j: int| 0 <= k < j < c implies apart(#[trigger] rr[k], #[trigger] rr[j]) by {
            lemma_offsets(slices, k, c);
            lemma_offsets(slices, k, j);
            lemma_offsets(slices, j, c);
        }
        assert forall|k: int| 0 <= k < l.len() && !is_blank(#[trigger] l[k]) implies within(l[k], r) by {
            if k >= c {
                assert(l[k] == l2[k - c]);
            } else {
                assert(l[k] == rr[k]);
            }
        }
        assert forall|k: int, j: int| 0 <= k < j < l.len() implies apart(#[trigger] l[k], #[trigger] l[j]) by {
            if j < c {
                assert(l[k] == rr[k] && l[j] == rr[j]);
            } else if k >= c {
                assert(l[k] == l2[k - c] && l[j] == l2[j - c]);
            } else {
                assert(l[k] == rr[k] && l[j] == l2[j - c]);
                if !is_blank(l2[j - c]) {
                    assert(within(l2[j - c], rest));
                }
            }
        }
        if (forall|m: int| i <= m < w.len() ==> w[m] > 0) && !is_blank(r) {
            lemma_total_area_concat(rr, l2);
            lemma_row_rects_area(r, vertical, ext, slices);
            lemma_wsum_subrange(w, i, i + c);
            lemma_weight_le_range(w, i, i, i + c);
            assert(vsum(slices) == side);
            if i + c < w.len() && !is_blank(rest) {
                assert(total_area(l2) == rest.w * rest.h);
            } else if i + c < w.len() {
                lemma_total_area_blank(l2);
            }
            assert(total_area(l) == ext * side + total_area(l2));
            if vertical {
                assert(ext * side + (other - ext) * side == other * side) by (nonlinear_arith);
                assert(r.w * r.h == other * side);
            } else {
                assert(ext * side + (other - ext) * side == other * side) by (nonlinear_arith);
                assert(r.w * r.h == side * other) by (nonlinear_arith)
                    requires
                        r.w == side,
                        r.h == other,
                ;
                assert(side * other == other * side) by (nonlinear_arith);
            }
        }
    }
}

/// Law: every rectangle that covers a pixel lies inside the area.
pub proof fn law_squarify_within(weights: Seq<u64>, area: SubRect, k: int)
    requires
        area.x + area.w <= u32::MAX,
        area.y + area.h <= u32::MAX,
        0 <= k < weights.len(),
        !is_blank(layout(weights, 0, area)[k]),
    ensures
        within(layout(weights, 0, area)[k], area),
{
    lemma_layout_geometry(weights, 0, area);
    lemma_layout_len(weights, 0, area);
}

/// Law: no two rectangles of a layout overlap.
pub proof fn law_squarify_disjoint(weights: Seq<u64>, area: SubRect, k: int, j: int)
    requires
        area.x + area.w <= u32::MAX,
        area.y + area.h <= u32::MAX,
        0 <= k < weights.len(),
        0 <= j < weights.len(),
        k != j,
    ensures
        apart(layout(weights, 0, area)[k], layout(weights, 0, area)[j]),
{
    lemma_layout_geometry(weights, 0, area);
    lemma_layout_len(weights, 0, area);
    if j < k {
        let l = layout(weights, 0, area);
        assert(apart(l[j], l[k]));
    }
}

/// Law: with positive weights the rectangles cover the whole area, so
/// together with the two laws above they tile it exactly.
pub proof fn law_squarify_covers(weights: Seq<u64>, area: SubRect)
    requires
        area.x + area.w <= u32::MAX,
        area.y + area.h <= u32::MAX,
        weights.len() > 0,
        forall|m: int| 0 <= m < weights.len() ==> weights[m] > 0,
        area.w > 0,
        area.h > 0,
    ensures
        total_area(layout(weights, 0, area)) == area.w * area.h,
{
    lemma_layout_geometry(weights, 0, area);
}

/// Law: one rectangle per weight, in input order.
pub proof fn law_squarify_len(weights: Seq<u64>, area: SubRect)
    ensures
        layout(weights, 0, area).len() == weights.len(),
{
    lemma_layout_len(weights, 0, area);
}

} // verus!
