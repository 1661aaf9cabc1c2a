//! The pixel buffer the treemap is painted into: one pixel per half-block
//! subcell, each with a colour and the region that owns it.
use vstd::prelude::*;
use crate::treemap::SubRect;

verus! {

/// A 24-bit colour.
pub type Rgb = [u8; 3];

/// Owner of a pixel that no region covers.
pub const EMPTY: u32 = 0xffff_ffff;

/// Row-major position of pixel `(x, y)` in a raster `w` pixels wide.
pub open spec fn idx(w: int, x: int, y: int) -> int {
    y * w + x
}

/// Pixel `(x, y)` lies in `r`.
pub open spec fn in_rect(r: SubRect, x: int, y: int) -> bool {
    r.x <= x < r.x + r.w && r.y <= y < r.y + r.h
}

/// Pixel `(x, y)` lies on the one-pixel frame of `r`; rectangles thinner than
/// three pixels get no frame.
pub open spec fn on_frame(r: SubRect, x: int, y: int) -> bool {
    &&& r.w >= 3 && r.h >= 3
    &&& in_rect(r, x, y)
    &&& (x == r.x || x == r.x + r.w - 1 || y == r.y || y == r.y + r.h - 1)
}

proof fn lemma_idx_bound(w: int, h: int, x: int, y: int)
    by (nonlinear_arith)
    requires
        0 <= x < w,
        0 <= y < h,
    ensures
        0 <= idx(w, x, y) < w * h,
{
}

proof fn lemma_idx_unique(w: int, x: int, y: int, x2: int, y2: int)
    by (nonlinear_arith)
    requires
        0 <= x < w,
        0 <= x2 < w,
        0 <= y,
        0 <= y2,
        idx(w, x, y) == idx(w, x2, y2),
    ensures
        x == x2 && y == y2,
{
    if y < y2 {
        assert(y * w + w <= y2 * w);
    } else if y2 < y {
        assert(y2 * w + w <= y * w);
    }
}

/// One pixel per half-block subcell (1 cell wide, half a cell tall).
pub struct Raster {
    pub w: u32,
    pub h: u32,
    pub rgb: Vec<Rgb>,
    pub owner: Vec<u32>,
    pub bg: Rgb,
}

impl Raster {
    pub open spec fn wf(&self) -> bool {
        &&& self.w * self.h <= usize::MAX
        &&& self.rgb@.len() == self.w * self.h
        &&& self.owner@.len() == self.w * self.h
    }

    /// Colour of pixel `(x, y)`.
    pub open spec fn pixel(&self, x: int, y: int) -> Rgb {
        self.rgb@[idx(self.w as int, x, y)]
    }

    /// Region owning pixel `(x, y)`.
    pub open spec fn owner_of(&self, x: int, y: int) -> u32 {
        self.owner@[idx(self.w as int, x, y)]
    }

    pub open spec fn inside(&self, x: int, y: int) -> bool {
        0 <= x < self.w && 0 <= y < self.h
    }

    /// A `w` by `h` raster filled with `bg`, owned by no region.
    pub fn new(w: u32, h: u32, bg: Rgb) -> (r: Self)
        requires
            w * h <= usize::MAX,
        ensures
            r.wf(),
            r.w == w,
            r.h == h,
            r.bg == bg,
            forall|x: int, y: int| r.inside(x, y) ==> #[trigger] r.pixel(x, y) == bg,
            forall|x: int, y: int| r.inside(x, y) ==> #[trigger] r.owner_of(x, y) == EMPTY,
    {
        let n = (w as usize) * (h as usize);
        let mut rgb: Vec<Rgb> = Vec::new();
        let mut owner: Vec<u32> = Vec::new();
        let mut k: usize = 0;
        while k < n
            invariant
                n == w * h,
                k <= n,
                rgb@.len() == k,
                owner@.len() == k,
                forall|i: int| 0 <= i < k ==> rgb@[i] == bg && owner@[i] == EMPTY,
            decreases n - k,
        {
            rgb.push(bg);
            owner.push(EMPTY);
            k = k + 1;
        }
        let out = Raster { w, h, rgb, owner, bg };
        proof {
            assert forall|x: int, y: int| out.inside(x, y) implies #[trigger] out.pixel(x, y) == bg && out.owner_of(x, y) == EMPTY by {
                lemma_idx_bound(w as int, h as int, x, y);
                let i = idx(w as int, x, y);
                assert(out.rgb@[i] == bg && out.owner@[i] == EMPTY);
            }
            assert forall|x: int, y: int| out.inside(x, y) implies #[trigger] out.owner_of(x, y) == EMPTY by {
                lemma_idx_bound(w as int, h as int, x, y);
                let i = idx(w as int, x, y);
                assert(out.owner@[i] == EMPTY);
            }
        }
        out
    }

    /// Colour at `(x, y)`; the background outside the raster.
    pub fn at(&self, x: u32, y: u32) -> (c: Rgb)
        requires
            self.wf(),
        ensures
            c == if self.inside(x as int, y as int) { self.pixel(x as int, y as int) } else { self.bg },
    {
        if x < self.w && y < self.h {
            proof {
                lemma_idx_bound(self.w as int, self.h as int, x as int, y as int);
            }
            self.rgb[(y as usize) * (self.w as usize) + x as usize]
        } else {
            self.bg
        }
    }

    /// Region owning `(x, y)`; `EMPTY` outside the raster.
    pub fn owner_at(&self, x: u32, y: u32) -> (o: u32)
        requires
            self.wf(),
        ensures
            o == if self.inside(x as int, y as int) { self.owner_of(x as int, y as int) } else { EMPTY },
    {
        if x < self.w && y < self.h {
            proof {
                lemma_idx_bound(self.w as int, self.h as int, x as int, y as int);
            }
            self.owner[(y as usize) * (self.w as usize) + x as usize]
        } else {
            EMPTY
        }
    }

    /// Set one pixel's colour; writes outside the raster are dropped.
    pub fn put(&mut self, x: u32, y: u32, c: Rgb)
        requires
            old(self).wf(),
        ensures
            final(self).wf(),
            final(self).w == old(self).w,
            final(self).h == old(self).h,
            final(self).bg == old(self).bg,
            final(self).owner == old(self).owner,
            forall|px: int, py: int|
                final(self).inside(px, py) ==> #[trigger] final(self).pixel(px, py) == if px == x && py == y {
                    c
                } else {
                    old(self).pixel(px, py)
                },
    {
        if x < self.w && y < self.h {
            proof {
                lemma_idx_bound(self.w as int, self.h as int, x as int, y as int);
            }
            let i = (y as usize) * (self.w as usize) + x as usize;
            self.rgb.set(i, c);
            proof {
                assert forall|px: int, py: int| self.inside(px, py) implies #[trigger] self.pixel(px, py) == if px == x
                    && py == y {
                    c
                } else {
                    old(self).pixel(px, py)
                } by {
                    lemma_idx_bound(self.w as int, self.h as int, px, py);
                    if idx(self.w as int, px, py) == i {
                        lemma_idx_unique(self.w as int, px, py, x as int, y as int);
                    }
                }
            }
        }
    }

    /// Paint the part of `r` inside the raster: every pixel gets the colour
    /// `paint` gives for it and is owned by `owner`.
    #[verifier::spinoff_prover]
    pub fn fill<F: Fn(u32, u32) -> Rgb>(&mut self, r: SubRect, owner: u32, paint: F)
        requires
            old(self).wf(),
            r.x + r.w <= u32::MAX,
            r.y + r.h <= u32::MAX,
            forall|x: u32, y: u32| paint.requires((x, y)),
        ensures
            final(self).wf(),
            final(self).w == old(self).w,
            final(self).h == old(self).h,
            final(self).bg == old(self).bg,
            forall|px: int, py: int|
                final(self).inside(px, py) ==> if in_rect(r, px, py) {
                    paint.ensures((px as u32, py as u32), #[trigger] final(self).pixel(px, py))
                        && final(self).owner_of(px, py) == owner
                } else {
                    final(self).pixel(px, py) == old(self).pixel(px, py) && final(self).owner_of(px, py)
                        == old(self).owner_of(px, py)
                },
    {
        let x0 = if r.x < self.w { r.x } else { self.w };
        let x1 = if r.x + r.w < self.w { r.x + r.w } else { self.w };
        let y0 = if r.y < self.h { r.y } else { self.h };
        let y1 = if r.y + r.h < self.h { r.y + r.h } else { self.h };
        let ghost w = self.w as int;
        let ghost h = self.h as int;
        let mut y = y0;
        while y < y1
            invariant
                self.wf(),
                self.w == old(self).w,
                self.h == old(self).h,
                self.bg == old(self).bg,
                w == self.w,
                h == self.h,
                forall|x: u32, y: u32| paint.requires((x, y)),
                y0 <= y <= y1,
                y1 <= h,
                x1 <= w,
                x0 == (if r.x < w { r.x as int } else { w }),
                x1 == (if r.x + r.w < w { (r.x + r.w) as int } else { w }),
                y0 == (if r.y < h { r.y as int } else { h }),
                y1 == (if r.y + r.h < h { (r.y + r.h) as int } else { h }),
                forall|px: int, py: int|
                    self.inside(px, py) ==> if in_rect(r, px, py) && py < y {
                        paint.ensures((px as u32, py as u32), #[trigger] self.pixel(px, py)) && self.owner_of(px, py)
                            == owner
                    } else {
                        self.pixel(px, py) == old(self).pixel(px, py) && self.owner_of(px, py) == old(self).owner_of(
                            px,
                            py,
                        )
                    },
            decreases y1 - y,
        {
            let mut x = x0;
            while x < x1
                invariant
                    self.wf(),
                    self.w == old(self).w,
                    self.h == old(self).h,
                    self.bg == old(self).bg,
                    w == self.w,
                    h == self.h,
                    forall|x: u32, y: u32| paint.requires((x, y)),
                    y0 <= y < y1,
                    y1 <= h,
                    x1 <= w,
                    x0 <= x <= x1,
                    x0 == (if r.x < w { r.x as int } else { w }),
                    x1 == (if r.x + r.w < w { (r.x + r.w) as int } else { w }),
                    y0 == (if r.y < h { r.y as int } else { h }),
                    y1 == (if r.y + r.h < h { (r.y + r.h) as int } else { h }),
                    forall|px: int, py: int|
                        self.inside(px, py) ==> if in_rect(r, px, py) && (py < y || (py == y && px < x)) {
                            paint.ensures((px as u32, py as u32), #[trigger] self.pixel(px, py))
                                && self.owner_of(px, py) == owner
                        } else {
                            self.pixel(px, py) == old(self).pixel(px, py) && self.owner_of(px, py)
                                == old(self).owner_of(px, py)
                        },
                decreases x1 - x,
            {
                proof {
                    lemma_idx_bound(w, h, x as int, y as int);
                }
                let ghost pre: Raster = *self;
                let c = paint(x, y);
                let i = (y as usize) * (self.w as usize) + x as usize;
                self.rgb.set(i, c);
                self.owner.set(i, owner);
                proof {
                    assert forall|px: int, py: int| self.inside(px, py) implies if in_rect(r, px, py) && (py < y
                        || (py == y && px < x + 1)) {
                        paint.ensures((px as u32, py as u32), #[trigger] self.pixel(px, py)) && self.owner_of(px, py)
                            == owner
                    } else {
                        self.pixel(px, py) == old(self).pixel(px, py) && self.owner_of(px, py) == old(
                            self,
                        ).owner_of(px, py)
                    } by {
                        lemma_idx_bound(w, h, px, py);
                        if idx(w, px, py) == i {
                            lemma_idx_unique(w, px, py, x as int, y as int);
                        } else {
                            assert(self.pixel(px, py) == pre.pixel(px, py));
                            assert(self.owner_of(px, py) == pre.owner_of(px, py));
                            assert(if in_rect(r, px, py) && (py < y || (py == y && px < x)) {
                                paint.ensures((px as u32, py as u32), pre.pixel(px, py)) && pre.owner_of(px, py) == owner
                            } else {
                                pre.pixel(px, py) == old(self).pixel(px, py) && pre.owner_of(px, py) == old(
                                    self,
                                ).owner_of(px, py)
                            });
                        }
                    }
                }
                x = x + 1;
            }
            proof {
                assert forall|px: int, py: int| self.inside(px, py) implies if in_rect(r, px, py) && py < y + 1 {
                    paint.ensures((px as u32, py as u32), #[trigger] self.pixel(px, py)) && self.owner_of(px, py)
                        == owner
                } else {
                    self.pixel(px, py) == old(self).pixel(px, py) && self.owner_of(px, py) == old(self).owner_of(
                        px,
                        py,
                    )
                } by {
                    if in_rect(r, px, py) && py == y {
                        assert(px < x);
                    }
                    assert(self.pixel(px, py) == self.pixel(px, py));
                }
            }
            y = y + 1;
        }
    }

    /// One-pixel frame of colour `c` around `r`, clipped to the raster;
    /// rectangles thinner than three pixels get none.
    pub fn outline(&mut self, r: SubRect, c: Rgb)
        requires
            old(self).wf(),
            r.x + r.w <= u32::MAX,
            r.y + r.h <= u32::MAX,
        ensures
            final(self).wf(),
            final(self).w == old(self).w,
            final(self).h == old(self).h,
            final(self).bg == old(self).bg,
            final(self).owner == old(self).owner,
            forall|px: int, py: int|
                final(self).inside(px, py) ==> #[trigger] final(self).pixel(px, py) == if on_frame(r, px, py) {
                    c
                } else {
                    old(self).pixel(px, py)
                },
    {
        if r.w < 3 || r.h < 3 {
            return;
        }
        let x0 = r.x;
        let x1 = r.x + r.w - 1;
        let y0 = r.y;
        let y1 = r.y + r.h - 1;
        // Top and bottom rows.
        let mut x = x0;
        while x <= x1
            invariant
                self.wf(),
                self.w == old(self).w,
                self.h == old(self).h,
                self.bg == old(self).bg,
                self.owner == old(self).owner,
                r.w >= 3 && r.h >= 3,
                x0 == r.x,
                x1 == r.x + r.w - 1,
                y0 == r.y,
                y1 == r.y + r.h - 1,
                x1 < u32::MAX,
                x0 <= x <= x1 + 1,
                forall|px: int, py: int|
                    self.inside(px, py) ==> #[trigger] self.pixel(px, py) == if x0 <= px < x && (py == y0 || py == y1) {
                        c
                    } else {
                        old(self).pixel(px, py)
                    },
            decreases x1 + 1 - x,
        {
            self.put(x, y0, c);
            self.put(x, y1, c);
            x = x + 1;
        }
        // Left and right columns.
        let mut y = y0;
        while y <= y1
            invariant
                self.wf(),
                self.w == old(self).w,
                self.h == old(self).h,
                self.bg == old(self).bg,
                self.owner == old(self).owner,
                r.w >= 3 && r.h >= 3,
                x0 == r.x,
                x1 == r.x + r.w - 1,
                y0 == r.y,
                y1 == r.y + r.h - 1,
                y1 < u32::MAX,
                y0 <= y <= y1 + 1,
                forall|px: int, py: int|
                    self.inside(px, py) ==> #[trigger] self.pixel(px, py) == if (x0 <= px <= x1 && (py == y0 || py
                        == y1)) || (y0 <= py < y && (px == x0 || px == x1)) {
                        c
                    } else {
                        old(self).pixel(px, py)
                    },
            decreases y1 + 1 - y,
        {
            self.put(x0, y, c);
            self.put(x1, y, c);
            y = y + 1;
        }
    }
}


/// Region index under the terminal cell `(cell_x, cell_y)` of a view `width`
/// by `height` cells drawn from `raster`: the owner of the cell's top pixel,
/// else of its bottom pixel.
pub fn hit(raster: &Raster, width: u16, height: u16, cell_x: u16, cell_y: u16) -> (r: Option<u32>)
    requires
        raster.wf(),
    ensures
        ({
            let x = cell_x as int;
            let y = 2 * cell_y as int;
            let top = if raster.inside(x, y) { raster.owner_of(x, y) } else { EMPTY };
            let bottom = if raster.inside(x, y + 1) { raster.owner_of(x, y + 1) } else { EMPTY };
            r == if cell_x >= width || cell_y >= height {
                None
            } else if top != EMPTY {
                Some(top)
            } else if bottom != EMPTY {
                Some(bottom)
            } else {
                None
            }
        }),
{
    if cell_x >= width || cell_y >= height {
        return None;
    }
    let lx = cell_x as u32;
    let ly = cell_y as u32 * 2;
    let a = raster.owner_at(lx, ly);
    if a != EMPTY {
        return Some(a);
    }
    let b = raster.owner_at(lx, ly + 1);
    if b != EMPTY {
        return Some(b);
    }
    None
}

} // verus!
