//! The shapes that can be drawn on a layer, and the layers themselves.
use vstd::prelude::*;

use crate::arith::{abs, trunc_div};
use crate::error::ImproError;
use crate::plot::{flatten, flatten_pixels, Pixel, Pos};

verus! {

/// A blend of three bytes, as the relation between its arguments and the byte it gives.
pub type BlendRel = spec_fn(u8, u8, u8, u8) -> bool;

/// The results that the blend `f` may give: `o` is a result of `f(a, b, c)`.
pub open spec fn blend_of<F: Fn(u8, u8, u8) -> u8>(f: F) -> BlendRel {
    |a: u8, b: u8, c: u8, o: u8| call_ensures(f, (a, b, c), o)
}

/// Sets the pixels at positions `start..end` to `color`.
fn fill_range(raw: &mut Vec<Pixel>, start: usize, end: usize, color: Pixel)
    requires
        start <= end <= old(raw).len(),
    ensures
        final(raw).len() == old(raw).len(),
        forall|p: int|
            0 <= p < old(raw).len() ==> #[trigger] final(raw)@[p] == if start <= p < end {
                color
            } else {
                old(raw)@[p]
            },
{
    let mut i = start;
    while i < end
        invariant
            start <= i <= end,
            end <= raw.len(),
            raw.len() == old(raw).len(),
            forall|p: int|
                0 <= p < raw.len() ==> #[trigger] raw@[p] == if start <= p < i {
                    color
                } else {
                    old(raw)@[p]
                },
        decreases end - i,
    {
        raw.set(i, color);
        i = i + 1;
    }
}

/// A rectangle whose box, stroke included, is `dim` pixels with its top-left
/// corner at `offset`; filled, or outlined with a border `stroke` pixels wide.
pub struct Rect {
    pub offset: Pos,
    pub dim: Pos,
    pub stroke: u8,
    pub color: Pixel,
    pub fill: bool,
}

impl Rect {
    /// Whether row `ri` of a canvas `cv` pixels tall crosses the rectangle.
    pub open spec fn row_drawn(&self, cv: Pos, ri: int) -> bool {
        self.offset.1 <= ri < cv.1 && ri < self.offset.1 + self.dim.1
    }

    /// Whether row `ri` is painted across the whole width: a filled rectangle,
    /// or a row of the top or bottom border.
    pub open spec fn row_solid(&self, ri: int) -> bool {
        self.fill || ri < self.offset.1 + self.stroke || ri >= self.offset.1 + self.dim.1 - self.stroke
    }

    /// The position where row `ri` of the rectangle starts in a canvas `cv.0` pixels wide.
    pub open spec fn row_start(&self, cv: Pos, ri: int) -> int {
        ri * cv.0 + self.offset.0
    }

    /// Whether drawing row `ri` paints position `p`: the whole width of a solid row,
    /// or the left and right borders of another.
    pub open spec fn row_paints(&self, cv: Pos, ri: int, p: int) -> bool {
        let back = self.row_start(cv, ri);
        &&& self.row_drawn(cv, ri)
        &&& if self.row_solid(ri) {
            back <= p < back + self.dim.0
        } else {
            (back <= p < back + self.stroke) || (back + self.dim.0 - self.stroke <= p < back + self.dim.0)
        }
    }

    /// Whether drawing the rectangle paints position `p`.
    pub open spec fn paints(&self, cv: Pos, p: int) -> bool {
        exists|ri: int| #[trigger] self.row_paints(cv, ri, p)
    }

    /// The rectangle can be drawn on a canvas `cv` of `len` pixels: the row bounds are
    /// computed without overflow and every painted span lies inside the canvas.
    pub open spec fn drawable(&self, cv: Pos, len: int) -> bool {
        &&& self.offset.1 < cv.1 ==> 1 <= self.offset.1 + self.dim.1 <= usize::MAX
        &&& self.offset.1 < cv.1 && !self.fill ==> self.offset.1 + self.stroke <= usize::MAX
        &&& forall|ri: int| #[trigger] self.row_drawn(cv, ri) ==> self.row_fits(cv, ri, len)
    }

    /// The spans painted in row `ri` lie inside a canvas of `len` pixels.
    pub open spec fn row_fits(&self, cv: Pos, ri: int, len: int) -> bool {
        &&& self.row_start(cv, ri) + self.dim.0 <= len
        &&& !self.row_solid(ri) ==> self.row_start(cv, ri) + self.stroke <= len && self.row_start(cv, ri)
            + self.dim.0 >= self.stroke
    }

    /// Whether the rectangle can be drawn on a canvas `cv` of `len` pixels, as
    /// `drawable` says; the drawn rows are checked one by one.
    pub fn fits(&self, cv: Pos, len: usize) -> (r: bool)
        ensures
            r == self.drawable(cv, len as int),
    {
        let off_x = self.offset.0 as u128;
        let off_y = self.offset.1 as u128;
        let bw = self.dim.0 as u128;
        let bh = self.dim.1 as u128;
        let cv_w = cv.0 as u128;
        let cv_h = cv.1 as u128;
        let stroke = self.stroke as u128;
        let umax = usize::MAX as u128;
        if off_y < cv_h {
            if !(1 <= off_y + bh && off_y + bh <= umax) {
                return false;
            }
            if !self.fill && off_y + stroke > umax {
                return false;
            }
        }
        let end: u128 = if cv_h < off_y + bh { cv_h } else { off_y + bh };
        let mut ri: u128 = off_y;
        while ri < end
            invariant
                off_y <= ri,
                end <= cv_h,
                end <= off_y + bh,
                cv_h == cv.1,
                cv_w == cv.0,
                off_x == self.offset.0,
                off_y == self.offset.1,
                bw == self.dim.0,
                bh == self.dim.1,
                stroke == self.stroke,
                forall|r: int| #[trigger] self.row_drawn(cv, r) && r < ri ==> self.row_fits(cv, r, len as int),
            decreases end - ri,
        {
            assert(self.row_drawn(cv, ri as int));
            proof {
                assert(ri * cv_w <= 0xffff_ffff_ffff_ffff * 0xffff_ffff_ffff_ffff) by (nonlinear_arith)
                    requires ri <= 0xffff_ffff_ffff_ffff, cv_w <= 0xffff_ffff_ffff_ffff;
            }
            let start: u128 = ri * cv_w + off_x;
            let solid = self.fill || ri < off_y + stroke || ri + stroke >= off_y + bh;
            if start + bw > len as u128 {
                return false;
            }
            if !solid && !(start + stroke <= len as u128 && start + bw >= stroke) {
                return false;
            }
            ri = ri + 1;
        }
        proof {
            assert forall|r: int| #[trigger] self.row_drawn(cv, r) implies self.row_fits(cv, r, len as int) by {
                assert(r < ri);
            }
        }
        true
    }

    /// Draws the rectangle onto `raw`, a canvas of `cv` pixels stored row by row.
    /// Rows are placed at `row * cv.0 + offset.0`, so a box wider than the space
    /// left in a row continues on the next.
    pub fn paint(&self, raw: &mut Vec<Pixel>, cv: Pos) -> (res: Result<(), crate::error::ImproError>)
        requires
            self.drawable(cv, old(raw).len() as int),
        ensures
            res is Ok,
            final(raw).len() == old(raw).len(),
            forall|p: int|
                0 <= p < old(raw).len() ==> #[trigger] final(raw)@[p] == if self.paints(cv, p) {
                    self.color
                } else {
                    old(raw)@[p]
                },
    {
        let cv_w = cv.0;
        let cv_h = cv.1;
        let bw = self.dim.0;
        let bh = self.dim.1;
        let off_x = self.offset.0;
        let off_y = self.offset.1;
        let stroke = self.stroke as usize;
        let color = self.color;
        let mut ri: usize = 0;
        while ri < cv_h
            invariant
                0 <= ri <= cv_h,
                cv_w == cv.0,
                cv_h == cv.1,
                bw == self.dim.0,
                bh == self.dim.1,
                off_x == self.offset.0,
                off_y == self.offset.1,
                stroke == self.stroke,
                color == self.color,
                self.drawable(cv, old(raw).len() as int),
                raw.len() == old(raw).len(),
                forall|p: int|
                    0 <= p < raw.len() ==> #[trigger] raw@[p] == if exists|r: int|
                        0 <= r < ri && #[trigger] self.row_paints(cv, r, p) {
                        color
                    } else {
                        old(raw)@[p]
                    },
            decreases cv_h - ri,
        {
            let ghost before = raw@;
            if ri < off_y || ri > off_y + bh - 1 {
                proof {
                    assert forall|p: int| 0 <= p < raw.len() implies #[trigger] raw@[p] == if exists|r: int|
                        0 <= r < ri + 1 && #[trigger] self.row_paints(cv, r, p) {
                        color
                    } else {
                        old(raw)@[p]
                    } by {
                        assert(!self.row_paints(cv, ri as int, p));
                        if exists|r: int| 0 <= r < ri + 1 && #[trigger] self.row_paints(cv, r, p) {
                            let r = choose|r: int| 0 <= r < ri + 1 && #[trigger] self.row_paints(cv, r, p);
                            assert(0 <= r < ri && self.row_paints(cv, r, p));
                        }
                    }
                }
            } else {
                proof {
                    assert(self.row_drawn(cv, ri as int));
                }
                let back = ri * cv_w + off_x;
                if self.fill || ri < off_y + stroke || ri > off_y + bh - stroke - 1 {
                    fill_range(raw, back, back + bw, color);
                } else {
                    fill_range(raw, back, back + stroke, color);
                    fill_range(raw, back + bw - stroke, back + bw, color);
                }
                proof {
                    assert forall|p: int| 0 <= p < raw.len() implies #[trigger] raw@[p] == if exists|r: int|
                        0 <= r < ri + 1 && #[trigger] self.row_paints(cv, r, p) {
                        color
                    } else {
                        old(raw)@[p]
                    } by {
                        if self.row_paints(cv, ri as int, p) {
                            assert(raw@[p] == color);
                        } else {
                            assert(raw@[p] == before[p]);
                            if exists|r: int| 0 <= r < ri + 1 && #[trigger] self.row_paints(cv, r, p) {
                                let r = choose|r: int| 0 <= r < ri + 1 && #[trigger] self.row_paints(cv, r, p);
                                assert(0 <= r < ri && self.row_paints(cv, r, p));
                            }
                        }
                    }
                }
            }
            ri = ri + 1;
        }
        proof {
            assert forall|p: int| 0 <= p < raw.len() implies #[trigger] raw@[p] == if self.paints(cv, p) {
                self.color
            } else {
                old(raw)@[p]
            } by {
                if self.paints(cv, p) {
                    let r = choose|r: int| #[trigger] self.row_paints(cv, r, p);
                    assert(self.row_drawn(cv, r));
                    assert(0 <= r < ri);
                }
            }
        }
        Ok(())
    }
}


/// Cells of a grid `w` wide with different coordinates have different positions.
proof fn lemma_cell_position_unique(r1: int, c1: int, r2: int, c2: int, w: int)
    requires
        0 <= c1 < w,
        0 <= c2 < w,
        0 <= r1,
        0 <= r2,
        r1 * w + c1 == r2 * w + c2,
    ensures
        r1 == r2,
        c1 == c2,
{
    if r1 < r2 {
        assert(r1 * w + c1 < r2 * w + c2) by (nonlinear_arith)
            requires r1 < r2, 0 <= c1 < w, 0 <= c2;
    } else if r2 < r1 {
        assert(r2 * w + c2 < r1 * w + c1) by (nonlinear_arith)
            requires r2 < r1, 0 <= c2 < w, 0 <= c1;
    }
}

/// Truncating division of an `i32` by a positive divisor.
fn div_toward_zero(a: i32, b: i32) -> (r: i32)
    requires
        b > 0,
    ensures
        r == trunc_div(a as int, b as int),
{
    let q = crate::arith::trunc_div_i64(a as i64, b as i64);
    proof {
        assert(abs(a as int) / abs(b as int) <= abs(a as int)) by (nonlinear_arith)
            requires b > 0;
    }
    q as i32
}

/// A circle inscribed in the box of `dim` pixels at `offset`, outlined with a ring
/// about `stroke` pixels thick or filled, its edge blended with what lies below.
pub struct Circ {
    pub offset: Pos,
    pub dim: Pos,
    pub stroke: u8,
    pub color: Pixel,
    pub fill: bool,
}

/// What drawing a circle does to one pixel.
pub enum CircPaint {
    /// The pixel takes the circle's color.
    Solid,
    /// Each byte is blended with the circle's color at this distance, in hundredths.
    Edge(u8),
    /// The pixel keeps its value.
    Keep,
}

impl Circ {
    /// The box width as the drawing computes with it (a truncating cast to `i32`).
    pub open spec fn bw(&self) -> int {
        (self.dim.0 as i32) as int
    }

    /// The box height as an `i32`.
    pub open spec fn bh(&self) -> int {
        (self.dim.1 as i32) as int
    }

    /// The box's left edge as an `i32`.
    pub open spec fn ox(&self) -> int {
        (self.offset.0 as i32) as int
    }

    /// The box's top edge as an `i32`.
    pub open spec fn oy(&self) -> int {
        (self.offset.1 as i32) as int
    }

    /// The column of the centre.
    pub open spec fn org_x(&self) -> int {
        self.ox() + trunc_div(self.bw(), 2)
    }

    /// The row of the centre.
    pub open spec fn org_y(&self) -> int {
        self.oy() + trunc_div(self.bh(), 2)
    }

    /// The radius: half the width less a hundredth of it.
    pub open spec fn rad(&self) -> int {
        trunc_div(self.bw(), 2) - trunc_div(self.bw(), 100)
    }

    /// The squared distance of `(x, y)` from the centre less the squared radius.
    pub open spec fn dist(&self, x: int, y: int) -> int {
        (x - self.org_x()) * (x - self.org_x()) + (y - self.org_y()) * (y - self.org_y()) - self.rad()
            * self.rad()
    }

    /// How far `(x, y)` lies outside the ring, in hundredths of its width.
    pub open spec fn excess(&self, x: int, y: int) -> int {
        abs(self.dist(x, y)) - 100 * self.stroke
    }

    /// What drawing the circle does to the pixel at column `x`, row `y`.
    pub open spec fn paint_at(&self, x: int, y: int) -> CircPaint {
        if self.excess(x, y) < 0 || (self.fill && self.dist(x, y) < 0) {
            CircPaint::Solid
        } else if self.excess(x, y) < 100 {
            CircPaint::Edge(self.excess(x, y) as u8)
        } else {
            CircPaint::Keep
        }
    }

    /// Whether row `ri` of a canvas `cv` pixels tall is visited.
    pub open spec fn row_in(&self, cv: Pos, ri: int) -> bool {
        0 <= ri < (cv.1 as i32) && self.oy() <= ri <= self.oy() + self.bh() - 1
    }

    /// Whether column `ci` of a canvas `cv` pixels wide is visited.
    pub open spec fn col_in(&self, cv: Pos, ci: int) -> bool {
        0 <= ci < (cv.0 as i32) && self.ox() <= ci <= self.ox() + self.bw() - 1
    }

    /// Whether cell `(ri, ci)` of the canvas lies in the circle's box.
    pub open spec fn covers(&self, cv: Pos, ri: int, ci: int) -> bool {
        self.row_in(cv, ri) && self.col_in(cv, ci)
    }

    /// The position of cell `(ri, ci)` in a canvas `cv.0` pixels wide.
    pub open spec fn cell(&self, cv: Pos, ri: int, ci: int) -> int {
        ri * (cv.0 as i32) + ci
    }

    /// Whether drawing the circle can change position `p`.
    pub open spec fn touches(&self, cv: Pos, p: int) -> bool {
        exists|ri: int, ci: int| self.covers(cv, ri, ci) && #[trigger] self.cell(cv, ri, ci) == p
    }

    /// The pixel `after` is a result of drawing the circle over `before` at column `x`, row `y`.
    pub open spec fn painted(&self, x: int, y: int, before: Pixel, after: Pixel, blend: BlendRel) -> bool {
        match self.paint_at(x, y) {
            CircPaint::Solid => after == self.color,
            CircPaint::Edge(k) => forall|ch: int|
                0 <= ch < 4 ==> blend(before[ch], self.color[ch], k, #[trigger] after[ch]),
            CircPaint::Keep => after == before,
        }
    }

    /// The arithmetic for cell `(ri, ci)` stays within `i32` and its position inside the canvas.
    pub open spec fn cell_ok(&self, cv: Pos, ri: int, ci: int, len: int) -> bool {
        let dx = ci - self.org_x();
        let dy = ri - self.org_y();
        &&& 0 <= self.cell(cv, ri, ci) <= i32::MAX
        &&& self.cell(cv, ri, ci) < len
        &&& i32::MIN <= dx <= i32::MAX
        &&& i32::MIN <= dy <= i32::MAX
        &&& i32::MIN <= dx * dx <= i32::MAX
        &&& i32::MIN <= dy * dy <= i32::MAX
        &&& i32::MIN <= dx * dx + dy * dy <= i32::MAX
        &&& i32::MIN <= self.rad() * self.rad() <= i32::MAX
        &&& i32::MIN < self.dist(ci, ri) <= i32::MAX
    }

    /// The circle can be drawn on a canvas `cv` of `len` pixels without overflow
    /// or reaching outside the canvas.
    pub open spec fn drawable(&self, cv: Pos, len: int) -> bool {
        let r0: int = if self.oy() < 0 { 0 } else { self.oy() };
        let c0: int = if self.ox() < 0 { 0 } else { self.ox() };
        &&& i32::MIN <= self.org_x() <= i32::MAX
        &&& i32::MIN <= self.org_y() <= i32::MAX
        &&& r0 < (cv.1 as i32) ==> i32::MIN + 1 <= self.oy() + self.bh() <= i32::MAX
        &&& (r0 < (cv.1 as i32) && r0 <= self.oy() + self.bh() - 1 && c0 < (cv.0 as i32)) ==> i32::MIN + 1
            <= self.ox() + self.bw() <= i32::MAX
        &&& forall|ri: int, ci: int| #[trigger] self.covers(cv, ri, ci) ==> self.cell_ok(cv, ri, ci, len)
    }
}


impl Circ {
    /// Whether the circle can be drawn on a canvas `cv` of `len` pixels, as
    /// `drawable` says; the cells of its box inside the canvas are checked one by one.
    pub fn fits(&self, cv: Pos, len: usize) -> (r: bool)
        ensures
            r == self.drawable(cv, len as int),
    {
        let (bw32, bh32) = self.dim.to_i32();
        let (ox32, oy32) = self.offset.to_i32();
        let (cvw32, cvh32) = cv.to_i32();
        let bw = bw32 as i128;
        let bh = bh32 as i128;
        let ox = ox32 as i128;
        let oy = oy32 as i128;
        let cvw = cvw32 as i128;
        let cvh = cvh32 as i128;
        let imin = i32::MIN as i128;
        let imax = i32::MAX as i128;
        let half_w = div_toward_zero(bw32, 2) as i128;
        let half_h = div_toward_zero(bh32, 2) as i128;
        let rad = half_w - div_toward_zero(bw32, 100) as i128;
        let org_x = ox + half_w;
        let org_y = oy + half_h;
        assert(org_x == self.org_x() && org_y == self.org_y() && rad == self.rad());
        if !(imin <= org_x && org_x <= imax && imin <= org_y && org_y <= imax) {
            return false;
        }
        let r0: i128 = if oy < 0 { 0 } else { oy };
        let c0: i128 = if ox < 0 { 0 } else { ox };
        if r0 < cvh && !(imin + 1 <= oy + bh && oy + bh <= imax) {
            return false;
        }
        if r0 < cvh && r0 <= oy + bh - 1 && c0 < cvw && !(imin + 1 <= ox + bw && ox + bw <= imax) {
            return false;
        }
        let r_end: i128 = if cvh < oy + bh { cvh } else { oy + bh };
        let c_end: i128 = if cvw < ox + bw { cvw } else { ox + bw };
        let mut ri: i128 = r0;
        while ri < r_end
            invariant
                r0 <= ri,
                r0 == (if oy < 0 { 0int } else { oy as int }),
                c0 == (if ox < 0 { 0int } else { ox as int }),
                r_end == (if cvh < oy + bh { cvh as int } else { oy + bh }),
                c_end == (if cvw < ox + bw { cvw as int } else { ox + bw }),
                bw == self.bw(),
                bh == self.bh(),
                ox == self.ox(),
                oy == self.oy(),
                cvw == (cv.0 as i32),
                cvh == (cv.1 as i32),
                org_x == self.org_x(),
                org_y == self.org_y(),
                rad == self.rad(),
                imin == i32::MIN,
                imax == i32::MAX,
                imin <= org_x <= imax,
                imin <= org_y <= imax,
                forall|r: int, c: int| #[trigger] self.covers(cv, r, c) && r < ri ==> self.cell_ok(cv, r, c, len as int),
            decreases r_end - ri,
        {
            let mut ci: i128 = c0;
            while ci < c_end
                invariant
                    r0 <= ri < r_end,
                    c0 <= ci,
                    r0 == (if oy < 0 { 0int } else { oy as int }),
                    c0 == (if ox < 0 { 0int } else { ox as int }),
                    r_end == (if cvh < oy + bh { cvh as int } else { oy + bh }),
                    c_end == (if cvw < ox + bw { cvw as int } else { ox + bw }),
                    bw == self.bw(),
                    bh == self.bh(),
                    ox == self.ox(),
                    oy == self.oy(),
                    cvw == (cv.0 as i32),
                    cvh == (cv.1 as i32),
                    org_x == self.org_x(),
                    org_y == self.org_y(),
                    rad == self.rad(),
                    imin == i32::MIN,
                    imax == i32::MAX,
                    imin <= org_x <= imax,
                    imin <= org_y <= imax,
                    forall|r: int, c: int|
                        #[trigger] self.covers(cv, r, c) && (r < ri || (r == ri && c < ci)) ==> self.cell_ok(
                            cv,
                            r,
                            c,
                            len as int,
                        ),
                decreases c_end - ci,
            {
                assert(self.covers(cv, ri as int, ci as int));
                proof {
                    assert(-0x4000_0000_0000_0000 <= ri * cvw <= 0x4000_0000_0000_0000) by (nonlinear_arith)
                        requires 0 <= ri < 0x8000_0000, -0x8000_0000 <= cvw < 0x8000_0000;
                }
                let cell = ri * cvw + ci;
                if !(0 <= cell && cell <= imax && cell < len as i128) {
                    return false;
                }
                let dx = ci - org_x;
                let dy = ri - org_y;
                if !(imin <= dx && dx <= imax && imin <= dy && dy <= imax) {
                    return false;
                }
                proof {
                    assert(0 <= dx * dx <= 0x4000_0000_0000_0000) by (nonlinear_arith)
                        requires -0x8000_0000 <= dx <= 0x7fff_ffff;
                    assert(0 <= dy * dy <= 0x4000_0000_0000_0000) by (nonlinear_arith)
                        requires -0x8000_0000 <= dy <= 0x7fff_ffff;
                    assert(0 <= rad * rad <= 0x4000_0000_0000_0000) by (nonlinear_arith)
                        requires -0x8000_0000 <= rad <= 0x8000_0000;
                }
                let dx2 = dx * dx;
                let dy2 = dy * dy;
                let rr = rad * rad;
                if !(dx2 <= imax && dy2 <= imax && dx2 + dy2 <= imax && rr <= imax) {
                    return false;
                }
                let dist = dx2 + dy2 - rr;
                assert(dist == self.dist(ci as int, ri as int));
                if !(imin < dist && dist <= imax) {
                    return false;
                }
                ci = ci + 1;
            }
            ri = ri + 1;
        }
        true
    }

    /// Draws the circle onto `raw`, a canvas of `cv` pixels stored row by row.
    /// Pixels of the box inside the ring (or the disc, when filled) take the color;
    /// pixels up to one ring-width beyond take `edge(old byte, color byte, excess)`
    /// for each byte; the rest are kept.
    pub fn paint<F: Fn(u8, u8, u8) -> u8>(&self, raw: &mut Vec<Pixel>, cv: Pos, edge: &F) -> (res: Result<
        (),
        crate::error::ImproError,
    >)
        requires
            self.drawable(cv, old(raw).len() as int),
            forall|x: u8, y: u8, z: u8| call_requires(*edge, (x, y, z)),
        ensures
            res is Ok,
            final(raw).len() == old(raw).len(),
            forall|ri: int, ci: int|
                #[trigger] self.covers(cv, ri, ci) ==> self.painted(
                    ci,
                    ri,
                    old(raw)@[self.cell(cv, ri, ci)],
                    final(raw)@[self.cell(cv, ri, ci)],
                    blend_of(*edge),
                ),
            forall|p: int| 0 <= p < old(raw).len() && !self.touches(cv, p) ==> #[trigger] final(raw)@[p] == old(raw)@[p],
    {
        let ghost orig = raw@;
        let (bw, bh) = self.dim.to_i32();
        let (off_x, off_y) = self.offset.to_i32();
        let (cv_w, cv_h) = cv.to_i32();
        let org_x = off_x + div_toward_zero(bw, 2);
        let org_y = off_y + div_toward_zero(bh, 2);
        let scale: i32 = 100 * (self.stroke as i32);
        let rad: i32 = div_toward_zero(bw, 2) - div_toward_zero(bw, 100);
        let color = self.color;
        let mut ri: i32 = 0;
        while ri < cv_h
            invariant
                0 <= ri,
                cv_h >= 0 ==> ri <= cv_h,
                cv_h < 0 ==> ri == 0,
                bw == self.bw(),
                bh == self.bh(),
                off_x == self.ox(),
                off_y == self.oy(),
                cv_w == (cv.0 as i32),
                cv_h == (cv.1 as i32),
                org_x == self.org_x(),
                org_y == self.org_y(),
                scale == 100 * self.stroke,
                rad == self.rad(),
                color == self.color,
                self.drawable(cv, orig.len() as int),
                orig == old(raw)@,
                raw.len() == orig.len(),
                forall|x: u8, y: u8, z: u8| call_requires(*edge, (x, y, z)),
                forall|r: int, c: int|
                    #[trigger] self.covers(cv, r, c) ==> if r < ri {
                        self.painted(c, r, orig[self.cell(cv, r, c)], raw@[self.cell(cv, r, c)], blend_of(*edge))
                    } else {
                        raw@[self.cell(cv, r, c)] == orig[self.cell(cv, r, c)]
                    },
                forall|p: int| 0 <= p < orig.len() && !self.touches(cv, p) ==> #[trigger] raw@[p] == orig[p],
            decreases cv_h - ri,
        {
            if !(ri < off_y || ri > off_y + bh - 1) {
                let mut ci: i32 = 0;
                while ci < cv_w
                    invariant
                        0 <= ri < cv_h,
                        self.row_in(cv, ri as int),
                        0 <= ci,
                        cv_w >= 0 ==> ci <= cv_w,
                        cv_w < 0 ==> ci == 0,
                        bw == self.bw(),
                        bh == self.bh(),
                        off_x == self.ox(),
                        off_y == self.oy(),
                        cv_w == (cv.0 as i32),
                        cv_h == (cv.1 as i32),
                        org_x == self.org_x(),
                        org_y == self.org_y(),
                        scale == 100 * self.stroke,
                        rad == self.rad(),
                        color == self.color,
                        self.drawable(cv, orig.len() as int),
                        raw.len() == orig.len(),
                        forall|x: u8, y: u8, z: u8| call_requires(*edge, (x, y, z)),
                        forall|r: int, c: int|
                            #[trigger] self.covers(cv, r, c) ==> if r < ri || (r == ri && c < ci) {
                                self.painted(c, r, orig[self.cell(cv, r, c)], raw@[self.cell(cv, r, c)], blend_of(*edge))
                            } else {
                                raw@[self.cell(cv, r, c)] == orig[self.cell(cv, r, c)]
                            },
                        forall|p: int| 0 <= p < orig.len() && !self.touches(cv, p) ==> #[trigger] raw@[p] == orig[p],
                    decreases cv_w - ci,
                {
                    if !(ci < off_x || ci > off_x + bw - 1) {
                        assert(self.covers(cv, ri as int, ci as int));
                        let idx = (ri * cv_w + ci) as usize;
                        let cur = raw[idx];
                        let dx = ci - org_x;
                        let dy = ri - org_y;
                        let n = dx * dx + dy * dy - rad * rad;
                        let an = if n < 0 { -n } else { n };
                        let d = an - scale;
                        let ghost before = raw@;
                        assert(n == self.dist(ci as int, ri as int));
                        assert(d == self.excess(ci as int, ri as int));
                        if d < 0 || (self.fill && n < 0) {
                            raw.set(idx, color);
                        } else if d < 100 {
                            let k = d as u8;
                            let mut pix = color;
                            let mut ch: usize = 0;
                            while ch < 4
                                invariant
                                    0 <= ch <= 4,
                                    forall|x: u8, y: u8, z: u8| call_requires(*edge, (x, y, z)),
                                    forall|j: int| 0 <= j < ch ==> call_ensures(*edge, (cur[j], color[j], k), #[trigger] pix[j]),
                                    forall|j: int| ch <= j < 4 ==> #[trigger] pix[j] == color[j],
                                decreases 4 - ch,
                            {
                                let b = edge(cur[ch], pix[ch], k);
                                pix[ch] = b;
                                ch = ch + 1;
                            }
                            raw.set(idx, pix);
                        }
                        proof {
                            assert forall|r: int, c: int|
                                #[trigger] self.covers(cv, r, c) implies if r < ri || (r == ri && c < ci + 1) {
                                    self.painted(c, r, orig[self.cell(cv, r, c)], raw@[self.cell(cv, r, c)], blend_of(*edge))
                                } else {
                                    raw@[self.cell(cv, r, c)] == orig[self.cell(cv, r, c)]
                                } by {
                                if r != ri || c != ci {
                                    if self.cell(cv, r, c) == idx as int {
                                        lemma_cell_position_unique(r, c, ri as int, ci as int, cv_w as int);
                                    }
                                    assert(raw@[self.cell(cv, r, c)] == before[self.cell(cv, r, c)]);
                                }
                            }
                            assert forall|p: int| 0 <= p < orig.len() && !self.touches(cv, p) implies #[trigger] raw@[p]
                                == orig[p] by {
                                if p == idx as int {
                                    assert(self.cell(cv, ri as int, ci as int) == p);
                                }
                            }
                        }
                    }
                    ci = ci + 1;
                }
            }
            ri = ri + 1;
        }
        Ok(())
    }
}


/// A curve sampled once per column: `rows[x]`, when present, is the height above
/// the baseline row `origin.1` of the point drawn in column `origin.0 + x`.
pub struct Curve {
    pub origin: Pos,
    pub color: Pixel,
    pub rows: Vec<Option<usize>>,
}

impl Curve {
    /// Whether sample `x` paints position `p` of a canvas `cv.0` pixels wide.
    pub open spec fn sample_paints(&self, cv: Pos, x: int, p: int) -> bool {
        &&& 0 <= x < self.rows@.len()
        &&& self.origin.0 + x <= cv.0 - 1
        &&& self.rows@[x] matches Some(t) && p == (self.origin.1 - t) * cv.0 + self.origin.0 + x
    }

    /// Whether drawing the curve paints position `p`.
    pub open spec fn paints(&self, cv: Pos, p: int) -> bool {
        exists|x: int| #[trigger] self.sample_paints(cv, x, p)
    }

    /// The curve can be drawn on a canvas `cv` of `len` pixels: the canvas has a
    /// column, no column index overflows, and every point lies at or below the
    /// baseline's height and inside the canvas.
    pub open spec fn drawable(&self, cv: Pos, len: int) -> bool {
        &&& self.rows@.len() > 0 ==> cv.0 >= 1
        &&& self.origin.0 + self.rows@.len() <= usize::MAX
        &&& forall|x: int|
            0 <= x < self.rows@.len() && self.origin.0 + x <= cv.0 - 1 && #[trigger] self.rows@[x] is Some ==> {
                &&& self.rows@[x]->0 <= self.origin.1
                &&& (self.origin.1 - self.rows@[x]->0) * cv.0 + self.origin.0 + x < len
            }
    }

    /// Whether the curve can be drawn on a canvas `cv` of `len` pixels, as
    /// `drawable` says; the samples are checked one by one.
    pub fn fits(&self, cv: Pos, len: usize) -> (r: bool)
        ensures
            r == self.drawable(cv, len as int),
    {
        let n = self.rows.len();
        if n > 0 && cv.0 < 1 {
            return false;
        }
        if self.origin.0 as u128 + n as u128 > usize::MAX as u128 {
            return false;
        }
        let ox = self.origin.0 as u128;
        let oy = self.origin.1 as u128;
        let cv_w = cv.0 as u128;
        let mut x: usize = 0;
        while x < n
            invariant
                0 <= x <= n,
                n == self.rows@.len(),
                ox == self.origin.0,
                oy == self.origin.1,
                cv_w == cv.0,
                forall|x2: int|
                    0 <= x2 < x && self.origin.0 + x2 <= cv.0 - 1 && #[trigger] self.rows@[x2] is Some ==> {
                        &&& self.rows@[x2]->0 <= self.origin.1
                        &&& (self.origin.1 - self.rows@[x2]->0) * cv.0 + self.origin.0 + x2 < len
                    },
            decreases n - x,
        {
            if ox + (x as u128) + 1 <= cv_w {
                match self.rows[x] {
                    Some(t) => {
                        assert(self.rows@[x as int] is Some);
                        if t as u128 > oy {
                            return false;
                        }
                        let dy = oy - t as u128;
                        proof {
                            assert(dy * cv_w <= 0xffff_ffff_ffff_ffff * 0xffff_ffff_ffff_ffff) by (nonlinear_arith)
                                requires dy <= 0xffff_ffff_ffff_ffff, cv_w <= 0xffff_ffff_ffff_ffff;
                        }
                        if dy * cv_w + ox + x as u128 >= len as u128 {
                            return false;
                        }
                    },
                    None => {},
                }
            }
            x = x + 1;
        }
        true
    }

    /// Draws the sampled points onto `raw`, a canvas of `cv` pixels stored row by row;
    /// samples past the right edge of the canvas are skipped.
    pub fn paint(&self, raw: &mut Vec<Pixel>, cv: Pos) -> (res: Result<(), crate::error::ImproError>)
        requires
            self.drawable(cv, old(raw).len() as int),
        ensures
            res is Ok,
            final(raw).len() == old(raw).len(),
            forall|p: int|
                0 <= p < old(raw).len() ==> #[trigger] final(raw)@[p] == if self.paints(cv, p) {
                    self.color
                } else {
                    old(raw)@[p]
                },
    {
        let cv_w = cv.0;
        let off_x = self.origin.0;
        let max_y = self.origin.1;
        let n = self.rows.len();
        let mut x: usize = 0;
        while x < n
            invariant
                0 <= x <= n,
                n == self.rows@.len(),
                cv_w == cv.0,
                off_x == self.origin.0,
                max_y == self.origin.1,
                self.drawable(cv, old(raw).len() as int),
                raw.len() == old(raw).len(),
                forall|p: int|
                    0 <= p < raw.len() ==> #[trigger] raw@[p] == if exists|x2: int|
                        0 <= x2 < x && #[trigger] self.sample_paints(cv, x2, p) {
                        self.color
                    } else {
                        old(raw)@[p]
                    },
            decreases n - x,
        {
            let ghost before = raw@;
            let x_idx = off_x + x;
            if !(x_idx > cv_w - 1) {
                match self.rows[x] {
                    Some(t) => {
                        proof {
                            assert(self.rows@[x as int] is Some);
                        }
                        let y_idx = max_y - t;
                        proof {
                            assert(y_idx * cv_w + x_idx < raw.len());
                            assert(0 <= y_idx * cv_w) by (nonlinear_arith)
                                requires y_idx >= 0, cv_w >= 0;
                        }
                        let p0 = y_idx * cv_w + x_idx;
                        raw.set(p0, self.color);
                    },
                    None => {},
                }
            }
            proof {
                assert forall|p: int| 0 <= p < raw.len() implies #[trigger] raw@[p] == if exists|x2: int|
                    0 <= x2 < x + 1 && #[trigger] self.sample_paints(cv, x2, p) {
                    self.color
                } else {
                    old(raw)@[p]
                } by {
                    if self.sample_paints(cv, x as int, p) {
                        assert(raw@[p] == self.color);
                    } else {
                        assert(raw@[p] == before[p]);
                        if exists|x2: int| 0 <= x2 < x + 1 && #[trigger] self.sample_paints(cv, x2, p) {
                            let x2 = choose|x2: int| 0 <= x2 < x + 1 && #[trigger] self.sample_paints(cv, x2, p);
                            assert(0 <= x2 < x && self.sample_paints(cv, x2, p));
                        }
                    }
                }
            }
            x = x + 1;
        }
        proof {
            assert forall|p: int| 0 <= p < raw.len() implies #[trigger] raw@[p] == if self.paints(cv, p) {
                self.color
            } else {
                old(raw)@[p]
            } by {
                if self.paints(cv, p) {
                    let x2 = choose|x2: int| #[trigger] self.sample_paints(cv, x2, p);
                    assert(0 <= x2 < x && self.sample_paints(cv, x2, p));
                }
            }
        }
        Ok(())
    }
}


/// A shape that can be placed on a layer.
pub enum Shape {
    Rect(Rect),
    Circ(Circ),
    Curve(Curve),
}

impl Shape {
    /// The shape can be drawn on a canvas `cv` of `len` pixels.
    pub open spec fn can_draw(&self, cv: Pos, len: int) -> bool {
        match self {
            Shape::Rect(r) => r.drawable(cv, len),
            Shape::Circ(c) => c.drawable(cv, len),
            Shape::Curve(c) => c.drawable(cv, len),
        }
    }

    /// `after` is a result of drawing the shape over `before`, on a canvas of `cv` pixels,
    /// with `edge` blending the rim of a circle.
    pub open spec fn paints_over(
        &self,
        cv: Pos,
        before: Seq<Pixel>,
        after: Seq<Pixel>,
        blend: BlendRel,
    ) -> bool {
        &&& after.len() == before.len()
        &&& match self {
            Shape::Rect(r) => forall|p: int|
                0 <= p < before.len() ==> #[trigger] after[p] == if r.paints(cv, p) {
                    r.color
                } else {
                    before[p]
                },
            Shape::Circ(c) => {
                &&& forall|ri: int, ci: int|
                    #[trigger] c.covers(cv, ri, ci) ==> c.painted(
                        ci,
                        ri,
                        before[c.cell(cv, ri, ci)],
                        after[c.cell(cv, ri, ci)],
                        blend,
                    )
                &&& forall|p: int| 0 <= p < before.len() && !c.touches(cv, p) ==> #[trigger] after[p] == before[p]
            },
            Shape::Curve(c) => forall|p: int|
                0 <= p < before.len() ==> #[trigger] after[p] == if c.paints(cv, p) {
                    c.color
                } else {
                    before[p]
                },
        }
    }
}

/// Something that draws itself onto a canvas of pixels stored row by row.
pub trait Node {
    /// The node can be drawn on a canvas `cv` of `len` pixels.
    spec fn node_drawable(&self, cv: Pos, len: int) -> bool;

    /// `after` is a result of drawing the node over `before` on a canvas of `cv`
    /// pixels, with `blend` the results that its blend may give.
    spec fn node_paints(&self, cv: Pos, before: Seq<Pixel>, after: Seq<Pixel>, blend: BlendRel) -> bool;

    /// Drawing the node on a canvas `cv` of `len` pixels succeeds.
    spec fn draw_ok(&self, cv: Pos, len: int) -> bool;

    /// The error that drawing the node on a canvas `cv` of `len` pixels fails with,
    /// when it fails.
    spec fn draw_error(&self, cv: Pos, len: int) -> ImproError;

    /// Whether the node can be drawn on a canvas `cv` of `len` pixels.
    fn is_drawable(&self, cv: Pos, len: usize) -> (r: bool)
        ensures
            r == self.node_drawable(cv, len as int),
    ;

    /// Draws the node onto `raw`, a canvas of `cv_dim` pixels.
    fn draw<F: Fn(u8, u8, u8) -> u8>(&self, raw: &mut Vec<Pixel>, cv_dim: Pos, edge: &F) -> (res: Result<(), ImproError>)
        requires
            self.node_drawable(cv_dim, old(raw).len() as int),
            forall|x: u8, y: u8, z: u8| call_requires(*edge, (x, y, z)),
        ensures
            final(raw).len() == old(raw).len(),
            res is Ok ==> self.node_paints(cv_dim, old(raw)@, final(raw)@, blend_of(*edge)),
            res is Ok <==> self.draw_ok(cv_dim, old(raw).len() as int),
            res is Err ==> res == Err::<(), ImproError>(self.draw_error(cv_dim, old(raw).len() as int)),
    ;
}

impl Node for Shape {
    open spec fn node_drawable(&self, cv: Pos, len: int) -> bool {
        self.can_draw(cv, len)
    }

    open spec fn node_paints(&self, cv: Pos, before: Seq<Pixel>, after: Seq<Pixel>, blend: BlendRel) -> bool {
        self.paints_over(cv, before, after, blend)
    }

    open spec fn draw_ok(&self, cv: Pos, len: int) -> bool {
        true
    }

    /// Never met: drawing a shape does not fail.
    open spec fn draw_error(&self, cv: Pos, len: int) -> ImproError {
        vstd::pervasive::arbitrary()
    }

    fn is_drawable(&self, cv: Pos, len: usize) -> (r: bool) {
        match self {
            Shape::Rect(r) => r.fits(cv, len),
            Shape::Circ(c) => c.fits(cv, len),
            Shape::Curve(c) => c.fits(cv, len),
        }
    }

    fn draw<F: Fn(u8, u8, u8) -> u8>(&self, raw: &mut Vec<Pixel>, cv_dim: Pos, edge: &F) -> (res: Result<(), ImproError>) {
        match self {
            Shape::Rect(r) => r.paint(raw, cv_dim),
            Shape::Circ(c) => c.paint(raw, cv_dim, edge),
            Shape::Curve(c) => c.paint(raw, cv_dim),
        }
    }
}

impl Node for Rect {
    open spec fn node_drawable(&self, cv: Pos, len: int) -> bool {
        self.drawable(cv, len)
    }

    open spec fn node_paints(&self, cv: Pos, before: Seq<Pixel>, after: Seq<Pixel>, blend: BlendRel) -> bool {
        Shape::Rect(*self).paints_over(cv, before, after, blend)
    }

    open spec fn draw_ok(&self, cv: Pos, len: int) -> bool {
        true
    }

    /// Never met: drawing a shape does not fail.
    open spec fn draw_error(&self, cv: Pos, len: int) -> ImproError {
        vstd::pervasive::arbitrary()
    }

    fn is_drawable(&self, cv: Pos, len: usize) -> (r: bool) {
        self.fits(cv, len)
    }

    fn draw<F: Fn(u8, u8, u8) -> u8>(&self, raw: &mut Vec<Pixel>, cv_dim: Pos, edge: &F) -> (res: Result<(), ImproError>) {
        self.paint(raw, cv_dim)
    }
}

impl Node for Circ {
    open spec fn node_drawable(&self, cv: Pos, len: int) -> bool {
        self.drawable(cv, len)
    }

    open spec fn node_paints(&self, cv: Pos, before: Seq<Pixel>, after: Seq<Pixel>, blend: BlendRel) -> bool {
        Shape::Circ(*self).paints_over(cv, before, after, blend)
    }

    open spec fn draw_ok(&self, cv: Pos, len: int) -> bool {
        true
    }

    /// Never met: drawing a shape does not fail.
    open spec fn draw_error(&self, cv: Pos, len: int) -> ImproError {
        vstd::pervasive::arbitrary()
    }

    fn is_drawable(&self, cv: Pos, len: usize) -> (r: bool) {
        self.fits(cv, len)
    }

    fn draw<F: Fn(u8, u8, u8) -> u8>(&self, raw: &mut Vec<Pixel>, cv_dim: Pos, edge: &F) -> (res: Result<(), ImproError>) {
        self.paint(raw, cv_dim, edge)
    }
}

impl Node for Curve {
    open spec fn node_drawable(&self, cv: Pos, len: int) -> bool {
        self.drawable(cv, len)
    }

    open spec fn node_paints(&self, cv: Pos, before: Seq<Pixel>, after: Seq<Pixel>, blend: BlendRel) -> bool {
        Shape::Curve(*self).paints_over(cv, before, after, blend)
    }

    open spec fn draw_ok(&self, cv: Pos, len: int) -> bool {
        true
    }

    /// Never met: drawing a shape does not fail.
    open spec fn draw_error(&self, cv: Pos, len: int) -> ImproError {
        vstd::pervasive::arbitrary()
    }

    fn is_drawable(&self, cv: Pos, len: usize) -> (r: bool) {
        self.fits(cv, len)
    }

    fn draw<F: Fn(u8, u8, u8) -> u8>(&self, raw: &mut Vec<Pixel>, cv_dim: Pos, edge: &F) -> (res: Result<(), ImproError>) {
        self.paint(raw, cv_dim)
    }
}

/// `trace` records drawing `nodes` in order: `trace[i + 1]` is a result of drawing
/// `nodes[i]` over `trace[i]`.
pub open spec fn paint_trace<N: Node>(
    nodes: Seq<N>,
    cv: Pos,
    trace: Seq<Seq<Pixel>>,
    blend: BlendRel,
) -> bool {
    &&& trace.len() == nodes.len() + 1
    &&& forall|i: int| 0 <= i < nodes.len() ==> #[trigger] nodes[i].node_paints(cv, trace[i], trace[i + 1], blend)
}

/// A layer of pixels, `dim` in size and placed at `pos`, filled with `bg` and
/// drawn over by its nodes in the order they were pushed. A locked layer takes
/// no new nodes.
pub struct Layer<N> {
    pos: Pos,
    dim: Pos,
    bg: Pixel,
    lock: bool,
    nodes: Vec<N>,
}

impl<N: Node> Layer<N> {
    /// Where the layer is placed.
    pub closed spec fn pos_of(&self) -> Pos {
        self.pos
    }

    /// The layer's size.
    pub closed spec fn dim_of(&self) -> Pos {
        self.dim
    }

    /// The background color.
    pub closed spec fn bg_of(&self) -> Pixel {
        self.bg
    }

    /// Whether the layer is locked.
    pub closed spec fn is_locked(&self) -> bool {
        self.lock
    }

    /// The nodes, in drawing order.
    pub closed spec fn nodes_of(&self) -> Seq<N> {
        self.nodes@
    }

    /// The layer's pixels before any node is drawn.
    pub open spec fn background(&self) -> Seq<Pixel> {
        Seq::new((self.dim_of().0 * self.dim_of().1) as nat, |i: int| self.bg_of())
    }

    /// The layer can be rendered: its bytes fit in memory and every node can be drawn on it.
    pub open spec fn renderable(&self) -> bool {
        &&& 4 * (self.dim_of().0 * self.dim_of().1) <= usize::MAX
        &&& forall|i: int|
            0 <= i < self.nodes_of().len() ==> #[trigger] self.nodes_of()[i].node_drawable(
                self.dim_of(),
                self.dim_of().0 * self.dim_of().1,
            )
    }

    /// The first node whose drawing on the layer fails.
    pub open spec fn first_failing(&self) -> int {
        choose|k: int| self.fails_first(k)
    }

    /// Node `k` is the first whose drawing on the layer fails.
    pub open spec fn fails_first(&self, k: int) -> bool {
        let area = self.dim_of().0 * self.dim_of().1;
        &&& 0 <= k < self.nodes_of().len()
        &&& !self.nodes_of()[k].draw_ok(self.dim_of(), area)
        &&& forall|j: int| 0 <= j < k ==> #[trigger] self.nodes_of()[j].draw_ok(self.dim_of(), area)
    }

    /// The error that rendering the layer fails with: that of its first failing node.
    pub open spec fn draw_error(&self) -> ImproError {
        self.nodes_of()[self.first_failing()].draw_error(self.dim_of(), self.dim_of().0 * self.dim_of().1)
    }

    /// Drawing each node of the layer on it succeeds.
    pub open spec fn draws_ok(&self) -> bool {
        forall|i: int|
            0 <= i < self.nodes_of().len() ==> #[trigger] self.nodes_of()[i].draw_ok(
                self.dim_of(),
                self.dim_of().0 * self.dim_of().1,
            )
    }

    /// `out` is a rendering of the layer: the bytes of its background drawn over by its
    /// nodes, one after another.
    pub open spec fn renders(&self, blend: BlendRel, out: Seq<u8>) -> bool {
        exists|trace: Seq<Seq<Pixel>>|
            #[trigger] paint_trace(self.nodes_of(), self.dim_of(), trace, blend) && trace[0] == self.background()
                && out == flatten(trace.last())
    }

    /// A layer with no nodes.
    pub fn new(pos: Pos, dim: Pos, bg: Pixel, lock: bool) -> (r: Self)
        ensures
            r.pos_of() == pos,
            r.dim_of() == dim,
            r.bg_of() == bg,
            r.is_locked() == lock,
            r.nodes_of() == Seq::<N>::empty(),
    {
        Layer { pos, dim, bg, lock, nodes: Vec::new() }
    }

    /// Locks the layer.
    pub fn lock(&mut self)
        ensures
            same_frame(*old(self), *final(self)),
            final(self).is_locked(),
            final(self).pos_of() == old(self).pos_of(),
            final(self).dim_of() == old(self).dim_of(),
            final(self).bg_of() == old(self).bg_of(),
            final(self).nodes_of() == old(self).nodes_of(),
    {
        self.lock = true;
    }

    /// Unlocks the layer.
    pub fn unlock(&mut self)
        ensures
            same_frame(*old(self), *final(self)),
            !final(self).is_locked(),
            final(self).pos_of() == old(self).pos_of(),
            final(self).dim_of() == old(self).dim_of(),
            final(self).bg_of() == old(self).bg_of(),
            final(self).nodes_of() == old(self).nodes_of(),
    {
        self.lock = false;
    }

    /// The layer's size.
    pub fn get_dim(&self) -> (r: &Pos)
        ensures
            *r == self.dim_of(),
    {
        &self.dim
    }

    /// The background color.
    pub fn get_bg(&self) -> (r: &Pixel)
        ensures
            *r == self.bg_of(),
    {
        &self.bg
    }

    /// Where the layer is placed.
    pub fn get_pos(&self) -> (r: &Pos)
        ensures
            *r == self.pos_of(),
    {
        &self.pos
    }

    /// Fails exactly when the layer is locked.
    pub fn check_lock(&self) -> (res: Result<(), ImproError>)
        ensures
            res is Err <==> self.is_locked(),
            res is Err ==> res == Err::<(), ImproError>(ImproError::LayerLocked),
    {
        if self.lock {
            Err(ImproError::LayerLocked)
        } else {
            Ok(())
        }
    }

    /// Adds `node` on top of the layer's nodes; fails, changing nothing, when the
    /// layer is locked.
    pub fn push(&mut self, node: N) -> (res: Result<(), ImproError>)
        ensures
            same_frame(*old(self), *final(self)),
            res is Err <==> old(self).is_locked(),
            res is Err ==> res == Err::<(), ImproError>(ImproError::LayerLocked) && *final(self) == *old(self),
            res is Ok ==> final(self).nodes_of() == old(self).nodes_of().push(node),
            final(self).pos_of() == old(self).pos_of(),
            final(self).dim_of() == old(self).dim_of(),
            final(self).bg_of() == old(self).bg_of(),
            final(self).is_locked() == old(self).is_locked(),
    {
        self.check_lock()?;
        self.nodes.push(node);
        Ok(())
    }

    /// Whether the layer can be rendered, as `renderable` says.
    pub fn is_renderable(&self) -> (r: bool)
        ensures
            r == self.renderable(),
    {
        let n = match self.dim.0.checked_mul(self.dim.1) {
            Some(n) => n,
            None => {
                return false;
            },
        };
        match n.checked_mul(4) {
            Some(_) => {},
            None => {
                return false;
            },
        }
        let mut k: usize = 0;
        while k < self.nodes.len()
            invariant
                0 <= k <= self.nodes@.len(),
                n == self.dim.0 * self.dim.1,
                forall|i: int| 0 <= i < k ==> #[trigger] self.nodes@[i].node_drawable(self.dim, n as int),
            decreases self.nodes@.len() - k,
        {
            if !self.nodes[k].is_drawable(self.dim, n) {
                assert(!self.nodes_of()[k as int].node_drawable(self.dim_of(), self.dim_of().0 * self.dim_of().1));
                return false;
            }
            k = k + 1;
        }
        true
    }

    /// Renders the layer into RGBA bytes: the background with every node drawn over
    /// it in order, `edge` blending the rims of circles.
    pub fn draw_u8<F: Fn(u8, u8, u8) -> u8>(&self, edge: &F) -> (res: Result<Vec<u8>, ImproError>)
        requires
            self.renderable(),
            forall|x: u8, y: u8, z: u8| call_requires(*edge, (x, y, z)),
        ensures
            res is Ok <==> self.draws_ok(),
            res is Err ==> res == Err::<Vec<u8>, ImproError>(self.draw_error()),
            res matches Ok(out) ==> out@.len() == 4 * (self.dim_of().0 * self.dim_of().1) && self.renders(
                blend_of(*edge),
                out@,
            ),
    {
        let n = self.dim.0 * self.dim.1;
        let bg = self.bg;
        let mut raw: Vec<Pixel> = Vec::new();
        let mut i: usize = 0;
        while i < n
            invariant
                0 <= i <= n,
                raw@.len() == i,
                forall|j: int| 0 <= j < i ==> #[trigger] raw@[j] == bg,
            decreases n - i,
        {
            raw.push(bg);
            i = i + 1;
        }
        proof {
            assert(raw@ =~= self.background());
        }
        let ghost mut trace: Seq<Seq<Pixel>> = seq![raw@];
        let mut k: usize = 0;
        while k < self.nodes.len()
            invariant
                0 <= k <= self.nodes@.len(),
                self.renderable(),
                n == self.dim.0 * self.dim.1,
                raw@.len() == n,
                forall|x: u8, y: u8, z: u8| call_requires(*edge, (x, y, z)),
                trace.len() == k + 1,
                trace[0] == self.background(),
                trace[k as int] == raw@,
                forall|i: int| 0 <= i < k ==> #[trigger] self.nodes@[i].node_paints(self.dim, trace[i], trace[i + 1], blend_of(*edge)),
                forall|j: int| 0 <= j < k ==> #[trigger] self.nodes_of()[j].draw_ok(self.dim_of(), self.dim_of().0 * self.dim_of().1),
            decreases self.nodes@.len() - k,
        {
            assert(self.nodes_of()[k as int].node_drawable(self.dim_of(), self.dim_of().0 * self.dim_of().1));
            match self.nodes[k].draw(&mut raw, self.dim, edge) {
                Ok(()) => {},
                Err(e) => {
                    proof {
                        assert(self.fails_first(k as int));
                        let k2 = self.first_failing();
                        assert(self.fails_first(k2));
                        if k2 < k {
                            assert(self.nodes_of()[k2].draw_ok(self.dim_of(), self.dim_of().0 * self.dim_of().1));
                        } else if k2 > k {
                            assert(self.nodes_of()[k as int].draw_ok(self.dim_of(), self.dim_of().0 * self.dim_of().1));
                        }
                    }
                    return Err(e);
                },
            }
            proof {
                trace = trace.push(raw@);
            }
            k = k + 1;
        }
        proof {
            assert(paint_trace(self.nodes_of(), self.dim_of(), trace, blend_of(*edge)));
        }
        let out = flatten_pixels(&raw);
        Ok(out)
    }
}


/// What drawing a rectangle does to the pixel at column `x`, row `y`, for a box that
/// fits across the canvas and a stroke no wider than the box: a pixel of the box takes
/// the color when the rectangle is filled or the pixel lies within `stroke` of any of
/// the box's four edges (top, bottom, left or right); every other pixel keeps its value.
pub proof fn lemma_rect_pixel(rect: Rect, cv: Pos, before: Seq<Pixel>, after: Seq<Pixel>, blend: BlendRel, x: int, y: int)
    requires
        Shape::Rect(rect).paints_over(cv, before, after, blend),
        rect.offset.0 + rect.dim.0 <= cv.0,
        rect.stroke <= rect.dim.0,
        0 <= x < cv.0,
        0 <= y < cv.1,
        y * cv.0 + x < before.len(),
    ensures
        after[y * cv.0 + x] == if {
            &&& rect.offset.1 <= y < rect.offset.1 + rect.dim.1
            &&& rect.offset.0 <= x < rect.offset.0 + rect.dim.0
            &&& (rect.fill || y < rect.offset.1 + rect.stroke || y >= rect.offset.1 + rect.dim.1 - rect.stroke || x
                < rect.offset.0 + rect.stroke || x >= rect.offset.0 + rect.dim.0 - rect.stroke)
        } {
            rect.color
        } else {
            before[y * cv.0 + x]
        },
{
    let p = y * cv.0 + x;
    let sh = Shape::Rect(rect);
    assert(sh->Rect_0 == rect);
    assert(0 <= p) by (nonlinear_arith)
        requires 0 <= y, 0 <= x, cv.0 >= 0, p == y * cv.0 + x;
    assert(after[p] == if rect.paints(cv, p) { rect.color } else { before[p] });
    let in_box = rect.offset.1 <= y < rect.offset.1 + rect.dim.1 && rect.offset.0 <= x < rect.offset.0 + rect.dim.0;
    let border = rect.fill || y < rect.offset.1 + rect.stroke || y >= rect.offset.1 + rect.dim.1 - rect.stroke || x
        < rect.offset.0 + rect.stroke || x >= rect.offset.0 + rect.dim.0 - rect.stroke;
    if in_box && border {
        assert(rect.row_paints(cv, y, p));
    } else if rect.paints(cv, p) {
        let ri = choose|ri: int| #[trigger] rect.row_paints(cv, ri, p);
        assert(rect.row_drawn(cv, ri));
        let c1 = p - ri * cv.0;
        assert(rect.offset.0 <= c1 < rect.offset.0 + rect.dim.0);
        lemma_cell_position_unique(ri, c1, y, x, cv.0 as int);
        assert(false);
    }
}

/// What drawing a curve does to the pixel at column `col`, row `row` of the canvas:
/// it takes the curve's color exactly when the column holds a sample (the sample
/// `col - origin.0`) whose height `t` puts it on that row, `row == origin.1 - t`;
/// otherwise it keeps its value.
pub proof fn lemma_curve_pixel(curve: Curve, cv: Pos, before: Seq<Pixel>, after: Seq<Pixel>, blend: BlendRel, col: int, row: int)
    requires
        Shape::Curve(curve).paints_over(cv, before, after, blend),
        0 <= col < cv.0,
        0 <= row,
        row * cv.0 + col < before.len(),
    ensures
        after[row * cv.0 + col] == if {
            &&& curve.origin.0 <= col < curve.origin.0 + curve.rows@.len()
            &&& curve.rows@[col - curve.origin.0] matches Some(t)
            &&& row == curve.origin.1 - t
        } {
            curve.color
        } else {
            before[row * cv.0 + col]
        },
{
    let p = row * cv.0 + col;
    let sh = Shape::Curve(curve);
    assert(sh->Curve_0 == curve);
    assert(0 <= p) by (nonlinear_arith)
        requires 0 <= row, 0 <= col, cv.0 >= 0, p == row * cv.0 + col;
    assert(after[p] == if curve.paints(cv, p) { curve.color } else { before[p] });
    let hit = curve.origin.0 <= col < curve.origin.0 + curve.rows@.len() && (curve.rows@[col - curve.origin.0] matches Some(
        t,
    ) && row == curve.origin.1 - t);
    if hit {
        assert(curve.sample_paints(cv, col - curve.origin.0, p));
    } else if curve.paints(cv, p) {
        let x2 = choose|x2: int| #[trigger] curve.sample_paints(cv, x2, p);
        let t2 = curve.rows@[x2]->0;
        let r2 = curve.origin.1 - t2;
        let c2 = curve.origin.0 + x2;
        assert(p == r2 * cv.0 + c2);
        if r2 < 0 {
            assert(r2 * cv.0 + c2 < 0) by (nonlinear_arith)
                requires r2 < 0, 0 <= c2 < cv.0;
        }
        lemma_cell_position_unique(r2, c2, row, col, cv.0 as int);
        assert(false);
    }
}

/// What drawing a circle does to the pixel at column `x`, row `y` of its box, for a
/// circle whose sizes and offsets and whose canvas fit `i32`. With the centre at
/// `(off.0 + w / 2, off.1 + h / 2)` and radius `w / 2 - w / 100`, let `n` be the
/// squared distance from the centre less the squared radius: a pixel with
/// `|n| < 100 * stroke` (or inside the circle, when filled) takes the color; one
/// within a further 100 of that is blended with the color at weight `|n| - 100 *
/// stroke`; any other keeps its value.
pub proof fn lemma_circle_pixel<F: Fn(u8, u8, u8) -> u8>(
    circ: Circ,
    cv: Pos,
    before: Seq<Pixel>,
    after: Seq<Pixel>,
    edge: F,
    x: int,
    y: int,
)
    requires
        Shape::Circ(circ).paints_over(cv, before, after, blend_of(edge)),
        circ.dim.0 <= i32::MAX,
        circ.dim.1 <= i32::MAX,
        circ.offset.0 <= i32::MAX,
        circ.offset.1 <= i32::MAX,
        cv.0 <= i32::MAX,
        cv.1 <= i32::MAX,
        0 <= x < cv.0,
        0 <= y < cv.1,
        circ.offset.0 <= x < circ.offset.0 + circ.dim.0,
        circ.offset.1 <= y < circ.offset.1 + circ.dim.1,
    ensures
        ({
            let dx = x - (circ.offset.0 + circ.dim.0 / 2);
            let dy = y - (circ.offset.1 + circ.dim.1 / 2);
            let rad = circ.dim.0 / 2 - circ.dim.0 / 100;
            let n = dx * dx + dy * dy - rad * rad;
            let a = if n < 0 { -n } else { n };
            let p = y * cv.0 + x;
            &&& (a < 100 * circ.stroke || (circ.fill && n < 0)) ==> after[p] == circ.color
            &&& (!(a < 100 * circ.stroke || (circ.fill && n < 0)) && a < 100 * circ.stroke + 100) ==> forall|ch: int|
                0 <= ch < 4 ==> call_ensures(
                    edge,
                    (before[p][ch], circ.color[ch], (a - 100 * circ.stroke) as u8),
                    #[trigger] after[p][ch],
                )
            &&& (!(circ.fill && n < 0) && a >= 100 * circ.stroke + 100) ==> after[p] == before[p]
        }),
{
    let dx = x - (circ.offset.0 + circ.dim.0 / 2);
    let dy = y - (circ.offset.1 + circ.dim.1 / 2);
    let rad = circ.dim.0 / 2 - circ.dim.0 / 100;
    let n = dx * dx + dy * dy - rad * rad;
    let a = if n < 0 { -n } else { n };
    let p = y * cv.0 + x;
    assert(circ.covers(cv, y, x));
    assert(circ.cell(cv, y, x) == p);
    assert(trunc_div(circ.bw(), 2) == circ.dim.0 / 2);
    assert(trunc_div(circ.bh(), 2) == circ.dim.1 / 2);
    assert(trunc_div(circ.bw(), 100) == circ.dim.0 / 100);
    assert(circ.org_x() == circ.offset.0 + circ.dim.0 / 2);
    assert(circ.org_y() == circ.offset.1 + circ.dim.1 / 2);
    assert(circ.rad() == rad);
    assert(circ.dist(x, y) == n);
    assert(abs(n) == a);
    assert(circ.excess(x, y) == a - 100 * circ.stroke);
    let blend = blend_of(edge);
    let sh = Shape::Circ(circ);
    assert(sh.paints_over(cv, before, after, blend));
    assert(sh->Circ_0 == circ);
    assert(forall|ri: int, ci: int|
        #[trigger] circ.covers(cv, ri, ci) ==> circ.painted(
            ci,
            ri,
            before[circ.cell(cv, ri, ci)],
            after[circ.cell(cv, ri, ci)],
            blend,
        ));
    assert(circ.painted(x, y, before[circ.cell(cv, y, x)], after[circ.cell(cv, y, x)], blend));
    assert(circ.painted(x, y, before[p], after[p], blend));
    match circ.paint_at(x, y) {
        CircPaint::Solid => {},
        CircPaint::Edge(k) => {
            assert(k == (a - 100 * circ.stroke) as u8);
            assert forall|ch: int| 0 <= ch < 4 implies call_ensures(
                edge,
                (before[p][ch], circ.color[ch], (a - 100 * circ.stroke) as u8),
                #[trigger] after[p][ch],
            ) by {
                assert(blend(before[p][ch], circ.color[ch], k, after[p][ch]));
            }
        },
        CircPaint::Keep => {},
    }
}

/// Drawing a circle leaves every pixel of the canvas outside its box as it was.
pub proof fn lemma_circle_outside_box<F: Fn(u8, u8, u8) -> u8>(
    circ: Circ,
    cv: Pos,
    before: Seq<Pixel>,
    after: Seq<Pixel>,
    edge: F,
    x: int,
    y: int,
)
    requires
        Shape::Circ(circ).paints_over(cv, before, after, blend_of(edge)),
        circ.dim.0 <= i32::MAX,
        circ.dim.1 <= i32::MAX,
        circ.offset.0 <= i32::MAX,
        circ.offset.1 <= i32::MAX,
        cv.0 <= i32::MAX,
        cv.1 <= i32::MAX,
        0 <= x < cv.0,
        0 <= y < cv.1,
        y * cv.0 + x < before.len(),
        !(circ.offset.0 <= x < circ.offset.0 + circ.dim.0 && circ.offset.1 <= y < circ.offset.1 + circ.dim.1),
    ensures
        after[y * cv.0 + x] == before[y * cv.0 + x],
{
    let p = y * cv.0 + x;
    assert(0 <= p) by (nonlinear_arith)
        requires 0 <= y, 0 <= x, cv.0 >= 0, p == y * cv.0 + x;
    if circ.touches(cv, p) {
        let (ri, ci) = choose|ri: int, ci: int| circ.covers(cv, ri, ci) && #[trigger] circ.cell(cv, ri, ci) == p;
        lemma_cell_position_unique(ri, ci, y, x, cv.0 as int);
        assert(false);
    }
}

/// Drawing a rectangle or a curve a second time changes nothing: each paints the
/// same positions with one color whatever lies below.
pub proof fn lemma_solid_paint_idempotent(
    s: Shape,
    cv: Pos,
    a: Seq<Pixel>,
    b: Seq<Pixel>,
    c: Seq<Pixel>,
    blend: BlendRel,
)
    requires
        !(s is Circ),
        s.paints_over(cv, a, b, blend),
        s.paints_over(cv, b, c, blend),
    ensures
        c == b,
{
    assert forall|p: int| 0 <= p < b.len() implies c[p] == b[p] by {
        match s {
            Shape::Rect(r) => {
                assert(c[p] == if r.paints(cv, p) { r.color } else { b[p] });
                assert(b[p] == if r.paints(cv, p) { r.color } else { a[p] });
            },
            Shape::Curve(k) => {
                assert(c[p] == if k.paints(cv, p) { k.color } else { b[p] });
                assert(b[p] == if k.paints(cv, p) { k.color } else { a[p] });
            },
            Shape::Circ(_) => {},
        }
    }
    assert(c =~= b);
}

/// `b` has the position, size and background color of `a`.
pub open spec fn same_frame<N: Node>(a: Layer<N>, b: Layer<N>) -> bool {
    &&& a.pos_of() == b.pos_of()
    &&& a.dim_of() == b.dim_of()
    &&& a.bg_of() == b.bg_of()
}

/// A layer's position, size and background color are fixed when it is made: along
/// any sequence of states in which each step keeps them (as `lock`, `unlock` and
/// `push` each do, and the other methods leave the layer as it is), every state has
/// those of the first.
pub proof fn lemma_frame_fixed<N: Node>(states: Seq<Layer<N>>)
    requires
        states.len() >= 1,
        forall|i: int| 0 <= i < states.len() - 1 ==> #[trigger] same_frame(states[i], states[i + 1]),
    ensures
        forall|i: int| 0 <= i < states.len() ==> #[trigger] same_frame(states[0], states[i]),
    decreases states.len(),
{
    if states.len() > 1 {
        let front = states.drop_last();
        assert forall|i: int| 0 <= i < front.len() - 1 implies #[trigger] same_frame(front[i], front[i + 1]) by {
            assert(same_frame(states[i], states[i + 1]));
        }
        lemma_frame_fixed(front);
        assert forall|i: int| 0 <= i < states.len() implies #[trigger] same_frame(states[0], states[i]) by {
            if i < states.len() - 1 {
                assert(same_frame(front[0], front[i]));
            } else {
                let j = i - 1;
                assert(same_frame(front[0], front[j]));
                assert(0 <= j < states.len() - 1);
                assert(same_frame(states[j], states[j + 1]));
                assert(j + 1 == i);
            }
        }
    }
}

/// Every state of a drawing trace of shapes has the length of the first.
proof fn lemma_trace_len(nodes: Seq<Shape>, cv: Pos, trace: Seq<Seq<Pixel>>, blend: BlendRel, i: int)
    requires
        paint_trace(nodes, cv, trace, blend),
        0 <= i <= nodes.len(),
    ensures
        trace[i].len() == trace[0].len(),
    decreases i,
{
    if i > 0 {
        lemma_trace_len(nodes, cv, trace, blend, i - 1);
        let j = i - 1;
        assert(nodes[j].node_paints(cv, trace[j], trace[j + 1], blend));
    }
}

/// Nodes are drawn in the order they were pushed: where the last node of a layer is a
/// rectangle or a curve that paints a pixel, the rendered layer shows that node's
/// color there, whatever the nodes before it drew.
pub proof fn lemma_last_node_on_top(layer: Layer<Shape>, blend: BlendRel, out: Seq<u8>, p: int, ch: int)
    requires
        layer.renders(blend, out),
        layer.nodes_of().len() >= 1,
        0 <= p < layer.dim_of().0 * layer.dim_of().1,
        0 <= ch < 4,
        match layer.nodes_of().last() {
            Shape::Rect(r) => r.paints(layer.dim_of(), p),
            Shape::Curve(c) => c.paints(layer.dim_of(), p),
            Shape::Circ(_) => false,
        },
    ensures
        out[4 * p + ch] == match layer.nodes_of().last() {
            Shape::Rect(r) => r.color[ch],
            Shape::Curve(c) => c.color[ch],
            Shape::Circ(c) => c.color[ch],
        },
{
    let nodes = layer.nodes_of();
    let n = nodes.len() as int;
    let trace = choose|trace: Seq<Seq<Pixel>>|
        #[trigger] paint_trace(nodes, layer.dim_of(), trace, blend) && trace[0] == layer.background()
            && out == flatten(trace.last());
    lemma_trace_len(nodes, layer.dim_of(), trace, blend, n - 1);
    let j = n - 1;
    assert(nodes[j].node_paints(layer.dim_of(), trace[j], trace[j + 1], blend));
    assert(j + 1 == n);
    assert(nodes[n - 1] == nodes.last());
    assert(trace.last() == trace[n]);
    assert((4 * p + ch) / 4 == p && (4 * p + ch) % 4 == ch);
}

/// A layer without nodes renders as its background color in every pixel.
pub proof fn lemma_empty_layer_renders_background<N: Node>(layer: Layer<N>, blend: BlendRel, out: Seq<u8>)
    requires
        layer.nodes_of().len() == 0,
        layer.renders(blend, out),
    ensures
        out == flatten(layer.background()),
{
    let trace = choose|trace: Seq<Seq<Pixel>>|
        #[trigger] paint_trace(layer.nodes_of(), layer.dim_of(), trace, blend) && trace[0] == layer.background()
            && out == flatten(trace.last());
    assert(trace.len() == 1);
}

} // verus!
