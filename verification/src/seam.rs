//! The panorama seam map: the frame-ownership map kept at the seam scale and its addressing, grid
//! neighbourhoods, rectangle overlap, which verified pairs get a seam and in what order (strongest
//! first), the reassignment of ownership across a cut seam, and the dilation of the deghosting
//! mark.

use vstd::prelude::*;

verus! {

/// A canvas-sized frame-ownership map at the seam (low-res) scale: one byte per cell, the owning
/// slot or 255 for an empty cell.
pub struct IdMap {
    pub ids: Vec<u8>,
    pub w: usize,
    pub h: usize,
}

/// The low-res coordinate that a full-res coordinate `c` (of `full` in all) falls in, on an axis of
/// `low` cells: `⌊c·low/full⌋` clamped to the last cell, and 0 on a degenerate axis.
pub open spec fn lowres_coord(c: int, low: int, full: int) -> int {
    let l = if full <= 1 {
        0
    } else {
        c * low / full
    };
    if l < low - 1 {
        l
    } else {
        low - 1
    }
}

impl IdMap {
    /// The map holds one byte per cell of a non-empty grid.
    pub open spec fn wf(&self) -> bool {
        self.w >= 1 && self.h >= 1 && self.ids@.len() == self.w * self.h
    }

    /// The owning slot (or 255) at a full-res canvas pixel, sampled nearest from the low-res map.
    pub fn owner_at(&self, cx: usize, cy: usize, canvas_w: usize, canvas_h: usize) -> (r: u8)
        requires
            self.wf(),
            cx * self.w <= usize::MAX,
            cy * self.h <= usize::MAX,
        ensures
            r == self.ids@[lowres_coord(cy as int, self.h as int, canvas_h as int) * self.w
                + lowres_coord(cx as int, self.w as int, canvas_w as int)],
            0 <= lowres_coord(cx as int, self.w as int, canvas_w as int) < self.w,
            0 <= lowres_coord(cy as int, self.h as int, canvas_h as int) < self.h,
    {
        let lx0 = if canvas_w <= 1 {
            0
        } else {
            (cx * self.w) / canvas_w
        };
        let lx = if lx0 < self.w - 1 {
            lx0
        } else {
            self.w - 1
        };
        let ly0 = if canvas_h <= 1 {
            0
        } else {
            (cy * self.h) / canvas_h
        };
        let ly = if ly0 < self.h - 1 {
            ly0
        } else {
            self.h - 1
        };
        let n = self.ids.len();
        proof {
            assert(ly * self.w + lx < self.w * self.h) by (nonlinear_arith)
                requires
                    ly < self.h,
                    lx < self.w,
            ;
        }
        self.ids[ly * self.w + lx]
    }
}

/// The 4-neighbours of cell `(gx, gy)` inside a `gw`×`gh` grid: left, right, up, down, as present.
pub open spec fn neighbours(gx: int, gy: int, gw: int, gh: int) -> Seq<(usize, usize)> {
    let a = if gx > 0 {
        seq![((gx - 1) as usize, gy as usize)]
    } else {
        seq![]
    };
    let b = if gx + 1 < gw {
        seq![((gx + 1) as usize, gy as usize)]
    } else {
        seq![]
    };
    let c = if gy > 0 {
        seq![(gx as usize, (gy - 1) as usize)]
    } else {
        seq![]
    };
    let d = if gy + 1 < gh {
        seq![(gx as usize, (gy + 1) as usize)]
    } else {
        seq![]
    };
    a + b + c + d
}

/// The 4-neighbours of a grid cell inside `gw`×`gh`.
pub fn neigh(gx: usize, gy: usize, gw: usize, gh: usize) -> (out: Vec<(usize, usize)>)
    requires
        gx < gw,
        gy < gh,
    ensures
        out@ == neighbours(gx as int, gy as int, gw as int, gh as int),
        forall|k: int|
            0 <= k < out@.len() ==> {
                let (nx, ny) = #[trigger] out@[k];
                nx < gw && ny < gh && ((nx == gx && (ny + 1 == gy || gy + 1 == ny)) || (ny == gy
                    && (nx + 1 == gx || gx + 1 == nx)))
            },
{
    let mut out: Vec<(usize, usize)> = Vec::new();
    if gx > 0 {
        out.push((gx - 1, gy));
    }
    if gx + 1 < gw {
        out.push((gx + 1, gy));
    }
    if gy > 0 {
        out.push((gx, gy - 1));
    }
    if gy + 1 < gh {
        out.push((gx, gy + 1));
    }
    assert(out@ =~= neighbours(gx as int, gy as int, gw as int, gh as int));
    out
}

/// Pixel `(px, py)` lies in the rectangle `(x0, y0, w, h)`.
pub open spec fn in_rect(r: (usize, usize, usize, usize), px: int, py: int) -> bool {
    r.0 <= px < r.0 + r.2 && r.1 <= py < r.1 + r.3
}

/// The intersection of two `(x0, y0, w, h)` rectangles: from the larger corner to the smaller far
/// edge, when that is not empty.
pub open spec fn overlap_of(a: (usize, usize, usize, usize), b: (usize, usize, usize, usize)) -> Option<
    (usize, usize, usize, usize),
> {
    let x0 = if a.0 > b.0 { a.0 } else { b.0 };
    let y0 = if a.1 > b.1 { a.1 } else { b.1 };
    let x1 = if a.0 + a.2 < b.0 + b.2 { a.0 + a.2 } else { b.0 + b.2 };
    let y1 = if a.1 + a.3 < b.1 + b.3 { a.1 + a.3 } else { b.1 + b.3 };
    if x1 > x0 && y1 > y0 {
        Some((x0, y0, (x1 - x0) as usize, (y1 - y0) as usize))
    } else {
        None
    }
}

/// Intersection of two `(x0, y0, w, h)` rectangles, or `None` if they share no pixel. A pixel lies
/// in the intersection exactly when it lies in both rectangles.
pub fn rect_overlap(a: (usize, usize, usize, usize), b: (usize, usize, usize, usize)) -> (r: Option<
    (usize, usize, usize, usize),
>)
    requires
        a.0 + a.2 <= usize::MAX,
        a.1 + a.3 <= usize::MAX,
        b.0 + b.2 <= usize::MAX,
        b.1 + b.3 <= usize::MAX,
    ensures
        r == overlap_of(a, b),
        match r {
            Some(o) => o.2 > 0 && o.3 > 0 && forall|px: int, py: int|
                #[trigger] in_rect(o, px, py) <==> in_rect(a, px, py) && in_rect(b, px, py),
            None => forall|px: int, py: int| !(#[trigger] in_rect(a, px, py) && in_rect(b, px, py)),
        },
{
    let x0 = if a.0 > b.0 {
        a.0
    } else {
        b.0
    };
    let y0 = if a.1 > b.1 {
        a.1
    } else {
        b.1
    };
    let x1 = if a.0 + a.2 < b.0 + b.2 {
        a.0 + a.2
    } else {
        b.0 + b.2
    };
    let y1 = if a.1 + a.3 < b.1 + b.3 {
        a.1 + a.3
    } else {
        b.1 + b.3
    };
    if x1 > x0 && y1 > y0 {
        Some((x0, y0, x1 - x0, y1 - y0))
    } else {
        assert forall|px: int, py: int| !(#[trigger] in_rect(a, px, py) && in_rect(b, px, py)) by {}
        None
    }
}

// ── Ownership across a seam ───────────────────────────────────────────────────────────────────

/// Which of a seam pair's two frames has usable data (feather weight above the floor) at each
/// pixel of their overlap rectangle, row by row.
pub struct PairCoverage {
    pub has_i: Vec<bool>,
    pub has_j: Vec<bool>,
}

/// The new owner of a pixel owned by `cur` that the seam gives to `desired` (one of `si`, `sj`):
/// a third frame's pixel is never taken; otherwise `desired` if it has data there, else the other
/// frame of the pair if that one has, else the pixel stays as it is.
pub open spec fn assigned(cur: u8, si: u8, sj: u8, desired: u8, has_i: bool, has_j: bool) -> u8 {
    if cur != si && cur != sj {
        cur
    } else {
        let other = if desired == si { sj } else { si };
        let has_desired = if desired == si { has_i } else { has_j };
        let has_other = if desired == si { has_j } else { has_i };
        if has_desired {
            desired
        } else if has_other {
            other
        } else {
            cur
        }
    }
}

/// A seam never takes a third frame's pixel, and only ever gives a pixel to one of the pair's frames
/// that has data there.
pub proof fn law_seam_respects_owners(cur: u8, si: u8, sj: u8, desired: u8, has_i: bool, has_j: bool)
    requires
        desired == si || desired == sj,
    ensures
        cur != si && cur != sj ==> assigned(cur, si, sj, desired, has_i, has_j) == cur,
        assigned(cur, si, sj, desired, has_i, has_j) != cur ==> (assigned(cur, si, sj, desired, has_i, has_j) == si
            && has_i) || (assigned(cur, si, sj, desired, has_i, has_j) == sj && has_j),
{
}

/// Pixel `p` of a canvas `cw` wide lies in the rectangle.
pub open spec fn cell_in(p: int, cw: int, rect: (usize, usize, usize, usize)) -> bool {
    cw > 0 && in_rect(rect, p % cw, p / cw)
}

/// The rectangle lies inside a canvas `cw` wide stored in `len` bytes.
pub open spec fn rect_fits(rect: (usize, usize, usize, usize), cw: int, len: int) -> bool {
    rect.0 + rect.2 <= cw && (rect.1 + rect.3) * cw <= len
}

/// How many of the first `k` bytes from `base` equal `s`.
pub open spec fn run_count(ids: Seq<u8>, base: int, k: nat, s: u8) -> int
    decreases k,
{
    if k == 0 {
        0
    } else {
        run_count(ids, base, (k - 1) as nat, s) + if ids[base + k - 1] == s { 1int } else { 0int }
    }
}

/// Left of a vertical seam: how many pixels of the first `rows` rows of the rectangle, left of the
/// seam's column in their row, are owned by `s`.
pub open spec fn left_count(ids: Seq<u8>, cw: int, rect: (usize, usize, usize, usize), seam: Seq<usize>, s: u8, rows: nat) -> int
    decreases rows,
{
    if rows == 0 {
        0
    } else {
        left_count(ids, cw, rect, seam, s, (rows - 1) as nat) + run_count(
            ids,
            (rect.1 + rows - 1) * cw + rect.0,
            seam[rows - 1] as nat,
            s,
        )
    }
}

/// The owner of pixel `p` after a vertical seam: the frame that owned more of the left side keeps
/// it, the other takes the right side, pixel by pixel as [`assigned`] allows.
pub open spec fn vertical_owner(
    ids: Seq<u8>,
    cw: int,
    has_i: Seq<bool>,
    has_j: Seq<bool>,
    si: u8,
    sj: u8,
    rect: (usize, usize, usize, usize),
    seam: Seq<usize>,
    p: int,
) -> u8 {
    let keep = left_count(ids, cw, rect, seam, si, rect.3 as nat) >= left_count(ids, cw, rect, seam, sj, rect.3 as nat);
    let left = if keep { si } else { sj };
    let right = if keep { sj } else { si };
    if cell_in(p, cw, rect) {
        let lx = p % cw - rect.0;
        let ly = p / cw - rect.1;
        let k = ly * rect.2 + lx;
        assigned(ids[p], si, sj, if lx < seam[ly] { left } else { right }, has_i[k], has_j[k])
    } else {
        ids[p]
    }
}

/// Where pixel `(lx, ly)` of the rectangle sits in the canvas, and in the coverage masks.
pub(crate) proof fn lemma_cell(cw: int, rect: (usize, usize, usize, usize), lx: int, ly: int, len: int)
    requires
        0 <= lx < rect.2,
        0 <= ly < rect.3,
        rect_fits(rect, cw, len),
    ensures
        0 <= (rect.1 + ly) * cw,
        0 <= (rect.1 + ly) * cw + rect.0 + lx < len,
        ((rect.1 + ly) * cw + rect.0 + lx) / cw == rect.1 + ly,
        ((rect.1 + ly) * cw + rect.0 + lx) % cw == rect.0 + lx,
        cell_in((rect.1 + ly) * cw + rect.0 + lx, cw, rect),
        0 <= ly * rect.2 + lx < rect.2 * rect.3,
{
    let ry = rect.1 as int;
    let rx = rect.0 as int;
    let ow = rect.2 as int;
    let oh = rect.3 as int;
    assert(0 <= (ry + ly) * cw && 0 <= (ry + ly) * cw + rx + lx < len) by (nonlinear_arith)
        requires
            0 <= lx < ow,
            0 <= ly < oh,
            rx >= 0,
            ry >= 0,
            rx + ow <= cw,
            (ry + oh) * cw <= len,
    ;
    vstd::arithmetic::div_mod::lemma_fundamental_div_mod_converse((ry + ly) * cw + rx + lx, cw, ry + ly, rx + lx);
    assert(0 <= ly * ow + lx < ow * oh) by (nonlinear_arith)
        requires
            0 <= lx < ow,
            0 <= ly < oh,
    ;
}

/// The rectangle's cell count is within the canvas.
pub(crate) proof fn lemma_area(cw: int, rect: (usize, usize, usize, usize), len: int)
    requires
        rect_fits(rect, cw, len),
    ensures
        rect.2 * rect.3 <= len,
{
    let ry = rect.1 as int;
    let rx = rect.0 as int;
    let ow = rect.2 as int;
    let oh = rect.3 as int;
    assert(ow * oh <= len) by (nonlinear_arith)
        requires
            rx >= 0,
            ry >= 0,
            ow >= 0,
            oh >= 0,
            rx + ow <= cw,
            (ry + oh) * cw <= len,
    ;
}

/// Sets pixel `idx` to its owner after the seam ([`assigned`]).
pub(crate) fn assign_pixel(ids: &mut Vec<u8>, idx: usize, si: u8, sj: u8, desired: u8, has_i: bool, has_j: bool)
    requires
        idx < old(ids)@.len(),
    ensures
        final(ids)@ == old(ids)@.update(idx as int, assigned(old(ids)@[idx as int], si, sj, desired, has_i, has_j)),
{
    let cur = ids[idx];
    if cur != si && cur != sj {
        return;
    }
    let (other, has_desired, has_other) = if desired == si {
        (sj, has_i, has_j)
    } else {
        (si, has_j, has_i)
    };
    if has_desired {
        ids.set(idx, desired);
    } else if has_other {
        ids.set(idx, other);
    }
}

/// Reassigns the overlap rectangle's pixels across a vertical seam (`seam[y]` is the first column
/// of row `y` on the right side): the frame that already owns more of the left side keeps it.
pub fn reassign_vertical(
    ids: &mut Vec<u8>,
    canvas_w: usize,
    cov: &PairCoverage,
    si: u8,
    sj: u8,
    rect: (usize, usize, usize, usize),
    seam: &[usize],
)
    requires
        rect_fits(rect, canvas_w as int, old(ids)@.len() as int),
        cov.has_i@.len() == rect.2 * rect.3,
        cov.has_j@.len() == rect.2 * rect.3,
        seam@.len() == rect.3,
        forall|y: int| 0 <= y < seam@.len() ==> #[trigger] seam@[y] <= rect.2,
    ensures
        final(ids)@.len() == old(ids)@.len(),
        forall|p: int|
            0 <= p < old(ids)@.len() ==> #[trigger] final(ids)@[p] == vertical_owner(
                old(ids)@,
                canvas_w as int,
                cov.has_i@,
                cov.has_j@,
                si,
                sj,
                rect,
                seam@,
                p,
            ),
{
    let (rx, ry, ow, oh) = rect;
    let cw = canvas_w;
    let ghost orig = ids@;
    let n = ids.len();
    let ghost len = orig.len() as int;
    proof {
        lemma_area(cw as int, rect, len);
    }
    let mut li: usize = 0;
    let mut lj: usize = 0;
    let mut ly: usize = 0;
    while ly < oh
        invariant
            (rx, ry, ow, oh) == rect,
            ly <= oh,
            ids@ == orig,
            len == orig.len(),
            len == n,
            rect_fits(rect, cw as int, len),
            ow * oh <= len,
            seam@.len() == oh,
            forall|y: int| 0 <= y < seam@.len() ==> #[trigger] seam@[y] <= ow,
            li == left_count(orig, cw as int, rect, seam@, si, ly as nat),
            lj == left_count(orig, cw as int, rect, seam@, sj, ly as nat),
            li <= ly * ow,
            lj <= ly * ow,
        decreases oh - ly,
    {
        let sx = seam[ly];
        let ghost base = (ry + ly) * cw + rx;
        let ghost li0 = li as int;
        let ghost lj0 = lj as int;
        proof {
            assert((ly + 1) * ow == ly * ow + ow) by (nonlinear_arith);
            assert((ly + 1) * ow <= ow * oh) by (nonlinear_arith)
                requires
                    ly < oh,
                    ow >= 0,
            ;
        }
        let mut lx: usize = 0;
        while lx < sx
            invariant
                (rx, ry, ow, oh) == rect,
                ly < oh,
                lx <= sx <= ow,
                ids@ == orig,
                len == orig.len(),
                len == n,
                rect_fits(rect, cw as int, len),
                base == (ry + ly) * cw + rx,
                (ly + 1) * ow <= ow * oh,
                ow * oh <= len,
                li == li0 + run_count(orig, base, lx as nat, si),
                lj == lj0 + run_count(orig, base, lx as nat, sj),
                li <= ly * ow + lx,
                lj <= ly * ow + lx,
            decreases sx - lx,
        {
            proof {
                lemma_cell(cw as int, rect, lx as int, ly as int, len);
            }
            let v = ids[(ry + ly) * cw + rx + lx];
            if v == si {
                li = li + 1;
            }
            if v == sj {
                lj = lj + 1;
            }
            lx = lx + 1;
        }
        ly = ly + 1;
    }
    let keep = li >= lj;
    let left = if keep { si } else { sj };
    let right = if keep { sj } else { si };
    let mut ly: usize = 0;
    while ly < oh
        invariant
            (rx, ry, ow, oh) == rect,
            ly <= oh,
            cw > 0 || ow == 0,
            ids@.len() == len,
            len == orig.len(),
            len == n,
            ow * oh <= len,
            rect_fits(rect, cw as int, len),
            seam@.len() == oh,
            cov.has_i@.len() == ow * oh,
            cov.has_j@.len() == ow * oh,
            left == (if li >= lj { si } else { sj }),
            right == (if li >= lj { sj } else { si }),
            li == left_count(orig, cw as int, rect, seam@, si, oh as nat),
            lj == left_count(orig, cw as int, rect, seam@, sj, oh as nat),
            forall|p: int|
                0 <= p < len ==> #[trigger] ids@[p] == if cell_in(p, cw as int, rect) && p / (cw as int) < ry + ly {
                    vertical_owner(orig, cw as int, cov.has_i@, cov.has_j@, si, sj, rect, seam@, p)
                } else {
                    orig[p]
                },
        decreases oh - ly,
    {
        let sx = seam[ly];
        let mut lx: usize = 0;
        while lx < ow
            invariant
                (rx, ry, ow, oh) == rect,
                ly < oh,
                lx <= ow,
                sx == seam@[ly as int],
                ids@.len() == len,
                len == orig.len(),
                len == n,
                ow * oh <= len,
                rect_fits(rect, cw as int, len),
                seam@.len() == oh,
                cov.has_i@.len() == ow * oh,
                cov.has_j@.len() == ow * oh,
                left == (if li >= lj { si } else { sj }),
                right == (if li >= lj { sj } else { si }),
                li == left_count(orig, cw as int, rect, seam@, si, oh as nat),
                lj == left_count(orig, cw as int, rect, seam@, sj, oh as nat),
                forall|p: int|
                    0 <= p < len ==> #[trigger] ids@[p] == if cell_in(p, cw as int, rect) && (p / (cw as int) < ry + ly || (
                    p / (cw as int) == ry + ly && p % (cw as int) < rx + lx)) {
                        vertical_owner(orig, cw as int, cov.has_i@, cov.has_j@, si, sj, rect, seam@, p)
                    } else {
                        orig[p]
                    },
            decreases ow - lx,
        {
            proof {
                lemma_cell(cw as int, rect, lx as int, ly as int, len);
            }
            let idx = (ry + ly) * cw + rx + lx;
            let k = ly * ow + lx;
            let desired = if lx < sx { left } else { right };
            let ghost before = ids@;
            assert(before[idx as int] == orig[idx as int]);
            assign_pixel(ids, idx, si, sj, desired, cov.has_i[k], cov.has_j[k]);
            proof {
                assert forall|p: int| 0 <= p < len implies #[trigger] ids@[p] == if cell_in(p, cw as int, rect) && (p
                    / (cw as int) < ry + ly || (p / (cw as int) == ry + ly && p % (cw as int) < rx + lx + 1)) {
                    vertical_owner(orig, cw as int, cov.has_i@, cov.has_j@, si, sj, rect, seam@, p)
                } else {
                    orig[p]
                } by {
                    if p == idx {
                        assert(ids@[p] == assigned(orig[p], si, sj, desired, cov.has_i@[k as int], cov.has_j@[k as int]));
                        assert(p % (cw as int) - rx == lx);
                        assert(p / (cw as int) - ry == ly);
                        assert(vertical_owner(orig, cw as int, cov.has_i@, cov.has_j@, si, sj, rect, seam@, p) == assigned(
                            orig[p], si, sj, desired, cov.has_i@[k as int], cov.has_j@[k as int]));
                    } else if cw > 0 {
                        vstd::arithmetic::div_mod::lemma_fundamental_div_mod(p, cw as int);
                        vstd::arithmetic::mul::lemma_mul_is_commutative(cw as int, p / (cw as int));
                    }
                }
            }
            lx = lx + 1;
        }
        ly = ly + 1;
    }
}

/// How many of the first `k` pixels of column `col`, from row `ry` down, are owned by `s`.
pub open spec fn column_count(ids: Seq<u8>, cw: int, col: int, ry: int, k: nat, s: u8) -> int
    decreases k,
{
    if k == 0 {
        0
    } else {
        column_count(ids, cw, col, ry, (k - 1) as nat, s) + if ids[(ry + k - 1) * cw + col] == s { 1int } else { 0int }
    }
}

/// Above a horizontal seam: how many pixels of the first `cols` columns of the rectangle, above the
/// seam's row in their column, are owned by `s`.
pub open spec fn top_count(ids: Seq<u8>, cw: int, rect: (usize, usize, usize, usize), seam: Seq<usize>, s: u8, cols: nat) -> int
    decreases cols,
{
    if cols == 0 {
        0
    } else {
        top_count(ids, cw, rect, seam, s, (cols - 1) as nat) + column_count(
            ids,
            cw,
            rect.0 + cols - 1,
            rect.1 as int,
            seam[cols - 1] as nat,
            s,
        )
    }
}

/// The owner of pixel `p` after a horizontal seam: the frame that owned more of the top side keeps
/// it, the other takes the bottom side, pixel by pixel as [`assigned`] allows.
pub open spec fn horizontal_owner(
    ids: Seq<u8>,
    cw: int,
    has_i: Seq<bool>,
    has_j: Seq<bool>,
    si: u8,
    sj: u8,
    rect: (usize, usize, usize, usize),
    seam: Seq<usize>,
    p: int,
) -> u8 {
    let keep = top_count(ids, cw, rect, seam, si, rect.2 as nat) >= top_count(ids, cw, rect, seam, sj, rect.2 as nat);
    let top = if keep { si } else { sj };
    let bottom = if keep { sj } else { si };
    if cell_in(p, cw, rect) {
        let lx = p % cw - rect.0;
        let ly = p / cw - rect.1;
        let k = ly * rect.2 + lx;
        assigned(ids[p], si, sj, if ly < seam[lx] { top } else { bottom }, has_i[k], has_j[k])
    } else {
        ids[p]
    }
}

/// Reassigns the overlap rectangle's pixels across a horizontal seam (`seam[x]` is the first row of
/// column `x` on the bottom side): the frame that already owns more of the top side keeps it.
pub fn reassign_horizontal(
    ids: &mut Vec<u8>,
    canvas_w: usize,
    cov: &PairCoverage,
    si: u8,
    sj: u8,
    rect: (usize, usize, usize, usize),
    seam: &[usize],
)
    requires
        rect_fits(rect, canvas_w as int, old(ids)@.len() as int),
        cov.has_i@.len() == rect.2 * rect.3,
        cov.has_j@.len() == rect.2 * rect.3,
        seam@.len() == rect.2,
        forall|x: int| 0 <= x < seam@.len() ==> #[trigger] seam@[x] <= rect.3,
    ensures
        final(ids)@.len() == old(ids)@.len(),
        forall|p: int|
            0 <= p < old(ids)@.len() ==> #[trigger] final(ids)@[p] == horizontal_owner(
                old(ids)@,
                canvas_w as int,
                cov.has_i@,
                cov.has_j@,
                si,
                sj,
                rect,
                seam@,
                p,
            ),
{
    let (rx, ry, ow, oh) = rect;
    let cw = canvas_w;
    let ghost orig = ids@;
    let n = ids.len();
    let ghost len = orig.len() as int;
    proof {
        lemma_area(cw as int, rect, len);
    }
    let mut ti: usize = 0;
    let mut tj: usize = 0;
    let mut lx: usize = 0;
    while lx < ow
        invariant
            (rx, ry, ow, oh) == rect,
            lx <= ow,
            ids@ == orig,
            len == orig.len(),
            len == n,
            rect_fits(rect, cw as int, len),
            ow * oh <= len,
            seam@.len() == ow,
            forall|x: int| 0 <= x < seam@.len() ==> #[trigger] seam@[x] <= oh,
            ti == top_count(orig, cw as int, rect, seam@, si, lx as nat),
            tj == top_count(orig, cw as int, rect, seam@, sj, lx as nat),
            ti <= lx * oh,
            tj <= lx * oh,
        decreases ow - lx,
    {
        let sy = seam[lx];
        let ghost ti0 = ti as int;
        let ghost tj0 = tj as int;
        proof {
            assert((lx + 1) * oh == lx * oh + oh) by (nonlinear_arith);
            assert((lx + 1) * oh <= ow * oh) by (nonlinear_arith)
                requires
                    lx < ow,
                    oh >= 0,
            ;
        }
        let mut ly: usize = 0;
        while ly < sy
            invariant
                (rx, ry, ow, oh) == rect,
                lx < ow,
                ly <= sy <= oh,
                ids@ == orig,
                len == orig.len(),
                len == n,
                rect_fits(rect, cw as int, len),
                (lx + 1) * oh <= ow * oh,
                ow * oh <= len,
                ti == ti0 + column_count(orig, cw as int, rx + lx, ry as int, ly as nat, si),
                tj == tj0 + column_count(orig, cw as int, rx + lx, ry as int, ly as nat, sj),
                (lx + 1) * oh == lx * oh + oh,
                ti <= lx * oh + ly,
                tj <= lx * oh + ly,
            decreases sy - ly,
        {
            proof {
                lemma_cell(cw as int, rect, lx as int, ly as int, len);
            }
            let v = ids[(ry + ly) * cw + rx + lx];
            if v == si {
                ti = ti + 1;
            }
            if v == sj {
                tj = tj + 1;
            }
            ly = ly + 1;
        }
        lx = lx + 1;
    }
    let keep = ti >= tj;
    let top = if keep { si } else { sj };
    let bottom = if keep { sj } else { si };
    let mut lx: usize = 0;
    while lx < ow
        invariant
            (rx, ry, ow, oh) == rect,
            lx <= ow,
            ids@.len() == len,
            len == orig.len(),
            len == n,
            ow * oh <= len,
            rect_fits(rect, cw as int, len),
            seam@.len() == ow,
            cov.has_i@.len() == ow * oh,
            cov.has_j@.len() == ow * oh,
            top == (if ti >= tj { si } else { sj }),
            bottom == (if ti >= tj { sj } else { si }),
            ti == top_count(orig, cw as int, rect, seam@, si, ow as nat),
            tj == top_count(orig, cw as int, rect, seam@, sj, ow as nat),
            forall|p: int|
                0 <= p < len ==> #[trigger] ids@[p] == if cell_in(p, cw as int, rect) && p % (cw as int) < rx + lx {
                    horizontal_owner(orig, cw as int, cov.has_i@, cov.has_j@, si, sj, rect, seam@, p)
                } else {
                    orig[p]
                },
        decreases ow - lx,
    {
        let sy = seam[lx];
        let mut ly: usize = 0;
        while ly < oh
            invariant
                (rx, ry, ow, oh) == rect,
                lx < ow,
                ly <= oh,
                sy == seam@[lx as int],
                ids@.len() == len,
                len == orig.len(),
                len == n,
                ow * oh <= len,
                rect_fits(rect, cw as int, len),
                seam@.len() == ow,
                cov.has_i@.len() == ow * oh,
                cov.has_j@.len() == ow * oh,
                top == (if ti >= tj { si } else { sj }),
                bottom == (if ti >= tj { sj } else { si }),
                ti == top_count(orig, cw as int, rect, seam@, si, ow as nat),
                tj == top_count(orig, cw as int, rect, seam@, sj, ow as nat),
                forall|p: int|
                    0 <= p < len ==> #[trigger] ids@[p] == if cell_in(p, cw as int, rect) && (p % (cw as int) < rx + lx || (
                    p % (cw as int) == rx + lx && p / (cw as int) < ry + ly)) {
                        horizontal_owner(orig, cw as int, cov.has_i@, cov.has_j@, si, sj, rect, seam@, p)
                    } else {
                        orig[p]
                    },
            decreases oh - ly,
        {
            proof {
                lemma_cell(cw as int, rect, lx as int, ly as int, len);
            }
            let idx = (ry + ly) * cw + rx + lx;
            let k = ly * ow + lx;
            let desired = if ly < sy { top } else { bottom };
            let ghost before = ids@;
            assert(before[idx as int] == orig[idx as int]);
            assign_pixel(ids, idx, si, sj, desired, cov.has_i[k], cov.has_j[k]);
            proof {
                assert forall|p: int| 0 <= p < len implies #[trigger] ids@[p] == if cell_in(p, cw as int, rect) && (p
                    % (cw as int) < rx + lx || (p % (cw as int) == rx + lx && p / (cw as int) < ry + ly + 1)) {
                    horizontal_owner(orig, cw as int, cov.has_i@, cov.has_j@, si, sj, rect, seam@, p)
                } else {
                    orig[p]
                } by {
                    if p == idx {
                        assert(ids@[p] == assigned(orig[p], si, sj, desired, cov.has_i@[k as int], cov.has_j@[k as int]));
                        assert(p % (cw as int) - rx == lx);
                        assert(p / (cw as int) - ry == ly);
                        assert(horizontal_owner(orig, cw as int, cov.has_i@, cov.has_j@, si, sj, rect, seam@, p) == assigned(
                            orig[p], si, sj, desired, cov.has_i@[k as int], cov.has_j@[k as int]));
                    } else if cw > 0 {
                        vstd::arithmetic::div_mod::lemma_fundamental_div_mod(p, cw as int);
                        assert(ids@[p] == before[p]);
                        vstd::arithmetic::mul::lemma_mul_is_commutative(cw as int, p / (cw as int));
                    }
                }
            }
            ly = ly + 1;
        }
        lx = lx + 1;
    }
}

// ── Dilating the deghosting mask ──────────────────────────────────────────────────────────────

/// Some cell of row `y` within `r` columns of `x` is set in the `ow`-wide mask.
pub open spec fn row_near(m: Seq<bool>, ow: int, r: int, x: int, y: int) -> bool {
    exists|k: int| 0 <= k < ow && x - r <= k <= x + r && #[trigger] m[y * ow + k]
}

/// Some cell within `r` columns and `r` rows of `(x, y)` is set in the `ow`×`oh` mask.
pub open spec fn square_near(m: Seq<bool>, ow: int, oh: int, r: int, x: int, y: int) -> bool {
    exists|k: int, l: int| 0 <= k < ow && 0 <= l < oh && x - r <= k <= x + r && y - r <= l <= y + r && #[trigger] m[l * ow + k]
}

/// Cell `(x, y)` of a `ow`×`oh` grid, stored row by row.
proof fn lemma_grid(ow: int, oh: int, x: int, y: int)
    requires
        0 <= x < ow,
        0 <= y < oh,
    ensures
        0 <= y * ow + x < ow * oh,
        y * ow + x + 1 <= (y + 1) * ow,
        (y + 1) * ow == y * ow + ow,
{
    assert(0 <= y * ow + x < ow * oh && (y + 1) * ow == y * ow + ow) by (nonlinear_arith)
        requires
            0 <= x < ow,
            0 <= y < oh,
    ;
}

/// The cell at position `j` along the row (`by_rows`) or column through `(x, y)`.
pub open spec fn pass_cell(ow: int, by_rows: bool, x: int, y: int, j: int) -> int {
    if by_rows {
        y * ow + j
    } else {
        j * ow + x
    }
}

/// One pass of the dilation: each cell becomes whether a set cell lies within `r` of it along the
/// rows (`by_rows`) or along the columns.
fn dilate_pass(m: &Vec<bool>, ow: usize, oh: usize, r: usize, by_rows: bool) -> (out: Vec<bool>)
    requires
        m@.len() == ow * oh,
        ow + r <= usize::MAX,
        oh + r <= usize::MAX,
    ensures
        out@.len() == ow * oh,
        forall|x: int, y: int|
            0 <= x < ow && 0 <= y < oh ==> #[trigger] out@[y * ow + x] == if by_rows {
                row_near(m@, ow as int, r as int, x, y)
            } else {
                exists|l: int| 0 <= l < oh && y - r <= l <= y + r && #[trigger] m@[l * ow + x]
            },
{
    let total = m.len();
    let mut out: Vec<bool> = Vec::new();
    let mut ly: usize = 0;
    while ly < oh
        invariant
            m@.len() == ow * oh,
            total == ow * oh,
            ow + r <= usize::MAX,
            oh + r <= usize::MAX,
            ly <= oh,
            out@.len() == ly * ow,
            forall|x: int, y: int|
                0 <= x < ow && 0 <= y < ly ==> #[trigger] out@[y * ow + x] == if by_rows {
                    row_near(m@, ow as int, r as int, x, y)
                } else {
                    exists|l: int| 0 <= l < oh && y - r <= l <= y + r && #[trigger] m@[l * ow + x]
                },
        decreases oh - ly,
    {
        let mut lx: usize = 0;
        while lx < ow
            invariant
                m@.len() == ow * oh,
                total == ow * oh,
                ow + r <= usize::MAX,
                oh + r <= usize::MAX,
                ly < oh,
                lx <= ow,
                out@.len() == ly * ow + lx,
                forall|x: int, y: int|
                    0 <= x < ow && 0 <= y < ly ==> #[trigger] out@[y * ow + x] == if by_rows {
                        row_near(m@, ow as int, r as int, x, y)
                    } else {
                        exists|l: int| 0 <= l < oh && y - r <= l <= y + r && #[trigger] m@[l * ow + x]
                    },
                forall|x: int|
                    0 <= x < lx ==> #[trigger] out@[ly * ow + x] == if by_rows {
                        row_near(m@, ow as int, r as int, x, ly as int)
                    } else {
                        exists|l: int| 0 <= l < oh && ly - r <= l <= ly + r && #[trigger] m@[l * ow + x]
                    },
            decreases ow - lx,
        {
            proof {
                lemma_grid(ow as int, oh as int, lx as int, ly as int);
            }
            let (c, n) = if by_rows {
                (lx, ow)
            } else {
                (ly, oh)
            };
            let lo = if c >= r {
                c - r
            } else {
                0
            };
            let hi = if c + r < n - 1 {
                c + r
            } else {
                n - 1
            };
            let mut hit = false;
            let mut k = lo;
            while k <= hi && !hit
                invariant
                    m@.len() == ow * oh,
                    total == ow * oh,
                    ly < oh,
                    lx < ow,
                    c == (if by_rows { lx } else { ly }),
                    n == (if by_rows { ow } else { oh }),
                    lo <= k,
                    k <= hi + 1,
                    hi < n,
                    lo == (if c >= r { c - r } else { 0 }),
                    hi == (if c + r < n - 1 { c + r } else { n - 1 }),
                    hit ==> exists|j: int| lo <= j < k && #[trigger] m@[pass_cell(ow as int, by_rows, lx as int, ly as int, j)],
                    !hit ==> forall|j: int| lo <= j < k ==> !#[trigger] m@[pass_cell(ow as int, by_rows, lx as int, ly as int, j)],
                decreases hi + 1 - k,
            {
                proof {
                    if by_rows {
                        lemma_grid(ow as int, oh as int, k as int, ly as int);
                    } else {
                        lemma_grid(ow as int, oh as int, lx as int, k as int);
                    }
                }
                let idx = if by_rows {
                    ly * ow + k
                } else {
                    k * ow + lx
                };
                assert(idx as int == pass_cell(ow as int, by_rows, lx as int, ly as int, k as int));
                if m[idx] {
                    hit = true;
                }
                k = k + 1;
            }
            proof {
                if by_rows {
                    if hit {
                        let j = choose|j: int| lo <= j < k && #[trigger] m@[pass_cell(ow as int, by_rows, lx as int, ly as int, j)];
                        assert(m@[ly * ow + j]);
                    } else {
                        assert forall|j: int| 0 <= j < ow && lx - r <= j <= lx + r implies !#[trigger] m@[ly * ow + j] by {
                            assert(lo <= j < k);
                            assert(!m@[pass_cell(ow as int, by_rows, lx as int, ly as int, j)]);
                        }
                    }
                } else {
                    if hit {
                        let j = choose|j: int| lo <= j < k && #[trigger] m@[pass_cell(ow as int, by_rows, lx as int, ly as int, j)];
                        assert(m@[j * ow + lx]);
                    } else {
                        assert forall|j: int| 0 <= j < oh && ly - r <= j <= ly + r implies !#[trigger] m@[j * ow + lx] by {
                            assert(lo <= j < k);
                            assert(!m@[pass_cell(ow as int, by_rows, lx as int, ly as int, j)]);
                        }
                    }
                }
            }
            let ghost prev = out@;
            out.push(hit);
            proof {
                assert forall|x: int, y: int| 0 <= x < ow && 0 <= y < ly implies #[trigger] out@[y * ow + x] == prev[y * ow + x] by {
                    assert(y * ow + x < ly * ow) by (nonlinear_arith)
                        requires
                            0 <= x < ow,
                            0 <= y < ly,
                    ;
                }
            }
            lx = lx + 1;
        }
        assert((ly + 1) * ow == ly * ow + ow) by (nonlinear_arith);
        ly = ly + 1;
    }
    assert(oh * ow == ow * oh) by (nonlinear_arith);
    out
}

/// The deghosting mark grown by `r` cells in every direction: a cell is set when a set cell of
/// `raw` lies within `r` columns and `r` rows of it (a square window, clipped to the grid).
pub fn dilate_mask(raw: &Vec<bool>, ow: usize, oh: usize, r: usize) -> (out: Vec<bool>)
    requires
        raw@.len() == ow * oh,
        ow + r <= usize::MAX,
        oh + r <= usize::MAX,
    ensures
        out@.len() == ow * oh,
        forall|x: int, y: int|
            0 <= x < ow && 0 <= y < oh ==> #[trigger] out@[y * ow + x] == square_near(raw@, ow as int, oh as int, r as int, x, y),
{
    let tmp = dilate_pass(raw, ow, oh, r, true);
    let out = dilate_pass(&tmp, ow, oh, r, false);
    proof {
        assert forall|x: int, y: int| 0 <= x < ow && 0 <= y < oh implies #[trigger] out@[y * ow + x] == square_near(
            raw@,
            ow as int,
            oh as int,
            r as int,
            x,
            y,
        ) by {
            if out@[y * ow + x] {
                let l = choose|l: int| 0 <= l < oh && y - r <= l <= y + r && #[trigger] tmp@[l * ow + x];
                assert(row_near(raw@, ow as int, r as int, x, l));
                let k = choose|k: int| 0 <= k < ow && x - r <= k <= x + r && #[trigger] raw@[l * ow + k];
                assert(square_near(raw@, ow as int, oh as int, r as int, x, y));
            }
            if square_near(raw@, ow as int, oh as int, r as int, x, y) {
                let (k, l) = choose|k: int, l: int|
                    0 <= k < ow && 0 <= l < oh && x - r <= k <= x + r && y - r <= l <= y + r && #[trigger] raw@[l * ow + k];
                assert(row_near(raw@, ow as int, r as int, x, l));
                assert(tmp@[l * ow + x]);
            }
        }
    }
    out
}

// ── Which pairs get a seam ────────────────────────────────────────────────────────────────────

/// What the seam stage reads of a verified pair: its two frames and its inlier count.
#[derive(Debug, Clone, Copy)]
pub struct SeamPair {
    pub i: usize,
    pub j: usize,
    pub n_inliers: usize,
}

/// `order` lists the pairs strongest first: each position once, by inlier count descending, ties
/// in their given order.
pub open spec fn strongest_first(pairs: Seq<SeamPair>, order: Seq<usize>) -> bool {
    &&& order.len() == pairs.len()
    &&& order.no_duplicates()
    &&& forall|a: int| 0 <= a < order.len() ==> #[trigger] order[a] < pairs.len()
    &&& forall|a: int, b: int|
        0 <= a < b < order.len() ==> pairs[#[trigger] order[a] as int].n_inliers > pairs[#[trigger] order[b] as int].n_inliers
            || (pairs[order[a] as int].n_inliers == pairs[order[b] as int].n_inliers && order[a] < order[b])
}

/// The pairs' positions, strongest first (a stable sort by inlier count, descending).
pub fn seam_order(pairs: &[SeamPair]) -> (order: Vec<usize>)
    ensures
        strongest_first(pairs@, order@),
{
    let mut order: Vec<usize> = Vec::new();
    let mut k: usize = 0;
    while k < pairs.len()
        invariant
            k <= pairs@.len(),
            strongest_first(pairs@.take(k as int), order@),
            forall|a: int| 0 <= a < order@.len() ==> #[trigger] order@[a] < k,
        decreases pairs@.len() - k,
    {
        let key = pairs[k].n_inliers;
        let mut p: usize = 0;
        while p < order.len() && pairs[order[p]].n_inliers >= key
            invariant
                k < pairs@.len(),
                key == pairs@[k as int].n_inliers,
                p <= order@.len(),
                forall|a: int| 0 <= a < order@.len() ==> #[trigger] order@[a] < k,
                forall|a: int| 0 <= a < p ==> pairs@[#[trigger] order@[a] as int].n_inliers >= key,
            decreases order@.len() - p,
        {
            p = p + 1;
        }
        let ghost old_order = order@;
        let ghost pre = pairs@.take(k as int);
        let ghost post = pairs@.take(k + 1);
        assert forall|a: int| 0 <= a < old_order.len() implies pre[#[trigger] old_order[a] as int] == post[old_order[a] as int] by {}
        order.insert(p, k);
        proof {
            assert(order@ == old_order.insert(p as int, k));
            assert forall|a: int| 0 <= a < order@.len() implies #[trigger] order@[a] < k + 1 by {
                if a < p {
                    assert(order@[a] == old_order[a]);
                } else if a > p {
                    assert(order@[a] == old_order[a - 1]);
                }
            }
            assert forall|a: int, b: int| 0 <= a < order@.len() && 0 <= b < order@.len() && a != b implies order@[a] != order@[b] by {
                if a != p && b != p {
                    let a0 = if a < p { a } else { a - 1 };
                    let b0 = if b < p { b } else { b - 1 };
                    assert(order@[a] == old_order[a0]);
                    assert(order@[b] == old_order[b0]);
                } else if a == p {
                    let b0 = if b < p { b } else { b - 1 };
                    assert(order@[b] == old_order[b0]);
                } else {
                    let a0 = if a < p { a } else { a - 1 };
                    assert(order@[a] == old_order[a0]);
                }
            }
            assert(order@.no_duplicates());
            assert forall|a: int, b: int| 0 <= a < b < order@.len() implies post[#[trigger] order@[a] as int].n_inliers > post[
                #[trigger] order@[b] as int].n_inliers || (post[order@[a] as int].n_inliers == post[order@[b] as int].n_inliers
                && order@[a] < order@[b]) by {
                let a0 = if a < p { a } else { a - 1 };
                let b0 = if b < p { b } else { b - 1 };
                if a != p && b != p {
                    assert(order@[a] == old_order[a0]);
                    assert(order@[b] == old_order[b0]);
                    assert(pre[old_order[a0] as int] == post[old_order[a0] as int]);
                    assert(pre[old_order[b0] as int] == post[old_order[b0] as int]);
                } else if a == p {
                    assert(order@[b] == old_order[b0]);
                    assert(b0 >= p);
                    if b0 > p {
                        assert(pre[old_order[p as int] as int].n_inliers > pre[old_order[b0] as int].n_inliers || (pre[old_order[p as int] as int].n_inliers
                            == pre[old_order[b0] as int].n_inliers && old_order[p as int] < old_order[b0]));
                    }
                    assert(post[old_order[b0] as int] == pairs@[old_order[b0] as int]);
                } else {
                    assert(order@[a] == old_order[a0]);
                    assert(post[old_order[a0] as int] == pairs@[old_order[a0] as int]);
                }
            }
        }
        k = k + 1;
    }
    assert(pairs@.take(pairs@.len() as int) =~= pairs@);
    order
}

/// The last of the first `m` slots that holds frame `f`.
pub open spec fn slot_in(used: Seq<usize>, f: usize, m: nat) -> Option<int>
    decreases m,
{
    if m == 0 {
        None
    } else if used[m - 1] == f {
        Some(m - 1)
    } else {
        slot_in(used, f, (m - 1) as nat)
    }
}

/// The slot that frame `f` maps to (the last one holding it).
pub open spec fn slot_of(used: Seq<usize>, f: usize) -> Option<int> {
    slot_in(used, f, used.len())
}

/// The seam a pair gets: both frames have slots, both slots have a canvas rectangle, and the
/// rectangles overlap; then the two slots and their overlap.
pub open spec fn seam_job(used: Seq<usize>, rects: Seq<Option<(usize, usize, usize, usize)>>, p: SeamPair) -> Option<
    (usize, usize, (usize, usize, usize, usize)),
> {
    match (slot_of(used, p.i), slot_of(used, p.j)) {
        (Some(si), Some(sj)) => match (rects[si], rects[sj]) {
            (Some(a), Some(b)) => match overlap_of(a, b) {
                Some(r) => Some((si as usize, sj as usize, r)),
                None => None,
            },
            _ => None,
        },
        _ => None,
    }
}

/// The seams of the pairs at the first `m` positions of `order`, in that order.
pub open spec fn jobs_upto(
    used: Seq<usize>,
    rects: Seq<Option<(usize, usize, usize, usize)>>,
    pairs: Seq<SeamPair>,
    order: Seq<usize>,
    m: nat,
) -> Seq<(usize, usize, (usize, usize, usize, usize))>
    decreases m,
{
    if m == 0 {
        Seq::empty()
    } else {
        let p = jobs_upto(used, rects, pairs, order, (m - 1) as nat);
        match seam_job(used, rects, pairs[order[m - 1] as int]) {
            Some(j) => p.push(j),
            None => p,
        }
    }
}

/// The slot frame `f` maps to.
fn slot_lookup(used: &[usize], f: usize) -> (r: Option<usize>)
    ensures
        match slot_of(used@, f) {
            Some(s) => r == Some(s as usize),
            None => r is None,
        },
{
    let mut m = used.len();
    while m > 0
        invariant
            m <= used@.len(),
            slot_in(used@, f, m as nat) == slot_of(used@, f),
        decreases m,
    {
        if used[m - 1] == f {
            return Some(m - 1);
        }
        m = m - 1;
    }
    None
}

/// The seams to cut, strongest pair first: each verified pair whose frames have slots (`used[s]`
/// is the frame of slot `s`), whose slots have canvas rectangles, and whose rectangles overlap.
pub fn seam_jobs(used: &[usize], pairs: &[SeamPair], rects: &[Option<(usize, usize, usize, usize)>]) -> (jobs: Vec<
    (usize, usize, (usize, usize, usize, usize)),
>)
    requires
        rects@.len() == used@.len(),
        forall|s: int|
            0 <= s < rects@.len() ==> (#[trigger] rects@[s] matches Some(r) ==> r.0 + r.2 <= usize::MAX && r.1 + r.3
                <= usize::MAX),
    ensures
        exists|order: Seq<usize>|
            strongest_first(pairs@, order) && jobs@ == #[trigger] jobs_upto(used@, rects@, pairs@, order, pairs@.len()),
{
    let order = seam_order(pairs);
    let mut jobs: Vec<(usize, usize, (usize, usize, usize, usize))> = Vec::new();
    let mut k: usize = 0;
    while k < order.len()
        invariant
            k <= order@.len(),
            strongest_first(pairs@, order@),
            rects@.len() == used@.len(),
            forall|s: int|
                0 <= s < rects@.len() ==> (#[trigger] rects@[s] matches Some(r) ==> r.0 + r.2 <= usize::MAX && r.1 + r.3
                    <= usize::MAX),
            jobs@ == jobs_upto(used@, rects@, pairs@, order@, k as nat),
        decreases order@.len() - k,
    {
        let pm = pairs[order[k]];
        let si = slot_lookup(used, pm.i);
        let sj = slot_lookup(used, pm.j);
        proof {
            assert(order@[k as int] < pairs@.len());
        }
        if let (Some(si), Some(sj)) = (si, sj) {
            proof {
                if slot_of(used@, pm.i) is Some {
                    lemma_slot_in_range(used@, pm.i, used@.len());
                }
                if slot_of(used@, pm.j) is Some {
                    lemma_slot_in_range(used@, pm.j, used@.len());
                }
            }
            if let (Some(a), Some(b)) = (rects[si], rects[sj]) {
                if let Some(r) = rect_overlap(a, b) {
                    jobs.push((si, sj, r));
                }
            }
        }
        k = k + 1;
    }
    jobs
}

proof fn lemma_slot_in_range(used: Seq<usize>, f: usize, m: nat)
    requires
        m <= used.len(),
        slot_in(used, f, m) is Some,
    ensures
        0 <= slot_in(used, f, m)->0 < m,
    decreases m,
{
    if m > 0 && used[m - 1] != f {
        lemma_slot_in_range(used, f, (m - 1) as nat);
    }
}

/// `n` distinct positions below `n` are all of them.
proof fn lemma_positions_all(o: Seq<usize>, n: nat, i: int)
    requires
        o.len() == n,
        o.no_duplicates(),
        forall|a: int| 0 <= a < o.len() ==> #[trigger] o[a] < n,
        0 <= i < n,
    ensures
        o.contains(i as usize),
{
    let si = o.map_values(|x: usize| x as int);
    assert forall|a: int, b: int| 0 <= a < si.len() && 0 <= b < si.len() && a != b implies si[a] != si[b] by {
        assert(o[a] != o[b]);
    }
    assert(si.no_duplicates());
    si.unique_seq_to_set();
    vstd::seq_lib::seq_to_set_is_finite(si);
    let s = si.to_set();
    vstd::set_lib::lemma_int_range(0, n as int);
    let r = vstd::set_lib::set_int_range(0, n as int);
    assert forall|x: int| s.contains(x) implies r.contains(x) by {
        let a = choose|a: int| 0 <= a < si.len() && si[a] == x;
        assert(o[a] < n);
    }
    vstd::set_lib::lemma_subset_equality(s, r);
    assert(r.contains(i));
    assert(s.contains(i));
    let a = choose|a: int| 0 <= a < si.len() && si[a] == i;
    assert(o[a] == i as usize);
}

/// The strongest-first order of a list of pairs is unique: it is the order in which their seams
/// are cut.
pub proof fn law_strongest_first_unique(pairs: Seq<SeamPair>, o1: Seq<usize>, o2: Seq<usize>)
    requires
        strongest_first(pairs, o1),
        strongest_first(pairs, o2),
    ensures
        o1 == o2,
{
    let n = pairs.len();
    assert forall|a: int| 0 <= a < n implies o1[a] == o2[a] by {
        lemma_same_at(pairs, o1, o2, a);
    }
    assert(o1 =~= o2);
}

proof fn lemma_same_at(pairs: Seq<SeamPair>, o1: Seq<usize>, o2: Seq<usize>, a: int)
    requires
        strongest_first(pairs, o1),
        strongest_first(pairs, o2),
        0 <= a < pairs.len(),
    ensures
        o1[a] == o2[a],
    decreases a,
{
    let n = pairs.len();
    let x = o1[a];
    let y = o2[a];
    if a > 0 {
        assert forall|c: int| 0 <= c < a implies o1[c] == o2[c] by {
            lemma_same_at(pairs, o1, o2, c);
        }
    }
    if x != y {
        lemma_positions_all(o1, n, y as int);
        lemma_positions_all(o2, n, x as int);
        let b = choose|b: int| 0 <= b < o1.len() && o1[b] == y;
        let c = choose|c: int| 0 <= c < o2.len() && o2[c] == x;
        // y is not among the first `a` of o1 (those are o2's, and o2 holds y at `a` only)
        if b < a {
            lemma_same_at(pairs, o1, o2, b);
            assert(o2[b] == y);
        }
        if c < a {
            lemma_same_at(pairs, o1, o2, c);
            assert(o1[c] == x);
        }
        assert(b > a && c > a);
        assert(pairs[o1[a] as int].n_inliers > pairs[o1[b] as int].n_inliers || (pairs[o1[a] as int].n_inliers
            == pairs[o1[b] as int].n_inliers && o1[a] < o1[b]));
        assert(pairs[o2[a] as int].n_inliers > pairs[o2[c] as int].n_inliers || (pairs[o2[a] as int].n_inliers
            == pairs[o2[c] as int].n_inliers && o2[a] < o2[c]));
    }
}

} // verus!
