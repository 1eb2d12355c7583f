//! RGBA8 buffer utilities of the develop pipeline: the identity tone-curve LUT, sub-rectangle
//! copies, per-channel histograms and the row padding of GPU read-backs.

use vstd::prelude::*;

verus! {

/// LUT resolution: one entry per 8-bit level.
pub const LUT_SIZE: usize = 256;

/// The byte alignment a GPU buffer row must have when a texture is copied into it (wgpu's
/// `COPY_BYTES_PER_ROW_ALIGNMENT`).
pub const COPY_BYTES_PER_ROW_ALIGNMENT: u32 = 256;

/// The LUT of an identity (no-op) curve: entry `i` is `(i, i, i, 255)`.
pub fn identity_lut() -> (lut: Vec<u8>)
    ensures
        lut@.len() == LUT_SIZE * 4,
        forall|i: int, c: int|
            0 <= i < LUT_SIZE && 0 <= c < 3 ==> #[trigger] lut@[4 * i + c] == i,
        forall|i: int| 0 <= i < LUT_SIZE ==> #[trigger] lut@[4 * i + 3] == 255,
{
    let mut lut: Vec<u8> = Vec::new();
    let mut i: usize = 0;
    while i < LUT_SIZE
        invariant
            i <= LUT_SIZE,
            lut@.len() == 4 * i,
            forall|j: int, c: int| 0 <= j < i && 0 <= c < 3 ==> #[trigger] lut@[4 * j + c] == j,
            forall|j: int| 0 <= j < i ==> #[trigger] lut@[4 * j + 3] == 255,
        decreases LUT_SIZE - i,
    {
        let v = i as u8;
        lut.push(v);
        lut.push(v);
        lut.push(v);
        lut.push(255);
        assert forall|j: int, c: int| 0 <= j < i + 1 && 0 <= c < 3 implies #[trigger] lut@[4 * j
            + c] == j by {
            if j == i {
                assert(lut@[4 * j + c] == v);
            }
        }
        i = i + 1;
    }
    lut
}

/// Bytes per row of a `width`-pixel RGBA8 row padded to the copy alignment.
pub fn padded_bpr(width: u32) -> (r: u32)
    requires
        4 * width + 255 <= u32::MAX,
    ensures
        r % 256 == 0,
        4 * width <= r < 4 * width + 256,
{
    let bytes = width * 4;
    (bytes + (COPY_BYTES_PER_ROW_ALIGNMENT - 1)) / COPY_BYTES_PER_ROW_ALIGNMENT
        * COPY_BYTES_PER_ROW_ALIGNMENT
}

/// The byte at channel `c` of pixel `(px, py)` of a `w`-pixel-wide RGBA8 buffer.
pub open spec fn rgba_at(s: Seq<u8>, w: int, px: int, py: int, c: int) -> u8 {
    s[(py * w + px) * 4 + c]
}

/// Copies the `cw`×`ch` sub-rectangle at `(x, y)` out of a tightly packed `w`-pixel-wide RGBA8
/// buffer — a plain pixel copy, no resampling.
pub fn crop_rgba8(rgba: &[u8], w: u32, x: u32, y: u32, cw: u32, ch: u32) -> (out: Vec<u8>)
    requires
        x + cw <= w,
        4 * w <= u32::MAX,
        (y + ch) * w * 4 <= rgba@.len(),
    ensures
        out@.len() == cw * ch * 4,
        forall|rx: int, ry: int, c: int|
            0 <= rx < cw && 0 <= ry < ch && 0 <= c < 4 ==> #[trigger] rgba_at(out@, cw as int, rx, ry, c)
                == rgba_at(rgba@, w as int, x + rx, y + ry, c),
{
    if cw == 0 {
        return Vec::new();
    }
    let row = (w * 4) as usize;
    let cwb = (cw * 4) as usize;
    let n = rgba.len();
    let mut out: Vec<u8> = Vec::new();
    let mut ry: usize = 0;
    while ry < ch as usize
        invariant
            n == rgba@.len(),
            row == 4 * w,
            cwb == 4 * cw,
            cw > 0,
            x + cw <= w,
            (y + ch) * w * 4 <= rgba@.len(),
            ry <= ch,
            out@.len() == ry * cwb,
            forall|rx: int, r: int, c: int|
                0 <= rx < cw && 0 <= r < ry && 0 <= c < 4 ==> #[trigger] rgba_at(out@, cw as int, rx, r, c)
                    == rgba_at(rgba@, w as int, x + rx, y + r, c),
        decreases ch - ry,
    {
        proof {
            assert((y + ry + 1) * row <= (y + ch) * row) by (nonlinear_arith)
                requires
                    ry < ch,
            ;
            assert((y + ry) * row + x * 4 + cwb <= (y + ry + 1) * row) by (nonlinear_arith)
                requires
                    row == 4 * w,
                    cwb == 4 * cw,
                    x + cw <= w,
            ;
            assert((y + ch) * row == (y + ch) * w * 4) by (nonlinear_arith)
                requires
                    row == 4 * w,
            ;
            assert((y + ry) * row <= (y + ry + 1) * row) by (nonlinear_arith);
            assert(y + ry <= (y + ry) * row) by (nonlinear_arith)
                requires
                    row >= 4,
            ;
        }
        let start = (y as usize + ry) * row + x as usize * 4;
        let ghost before = out@;
        let piece = &rgba[start..start + cwb];
        out.extend_from_slice(piece);
        assert(out@ =~= before + rgba@.subrange(start as int, start + cwb));
        assert forall|rx: int, r: int, c: int|
            0 <= rx < cw && 0 <= r < ry + 1 && 0 <= c < 4 implies #[trigger] rgba_at(out@, cw as int, rx, r, c)
                == rgba_at(rgba@, w as int, x + rx, y + r, c) by {
            assert((r * cw + rx) * 4 + c == r * cwb + rx * 4 + c) by (nonlinear_arith)
                requires
                    cwb == 4 * cw,
            ;
            assert(((y + r) * w + x + rx) * 4 + c == (y + r) * row + x * 4 + rx * 4 + c) by (nonlinear_arith)
                requires
                    row == 4 * w,
            ;
            if r < ry {
                assert(r * cwb + rx * 4 + c < ry * cwb) by (nonlinear_arith)
                    requires
                        r < ry,
                        cwb == 4 * cw,
                        0 <= rx < cw,
                        0 <= c < 4,
                ;
                assert(out@[r * cwb + rx * 4 + c] == before[r * cwb + rx * 4 + c]);
                assert(rgba_at(before, cw as int, rx, r, c) == rgba_at(rgba@, w as int, x + rx, y + r, c));
            } else {
                assert(r * cwb + rx * 4 + c == before.len() + (rx * 4 + c));
                assert(0 <= rx * 4 + c < cwb);
                assert(out@[r * cwb + rx * 4 + c] == rgba@[start + rx * 4 + c]);
                assert(start + rx * 4 + c == ((y + r) * w + x + rx) * 4 + c);
            }
        }
        assert(out@.len() == (ry + 1) * cwb) by (nonlinear_arith)
            requires
                out@.len() == ry * cwb + cwb,
        ;
        ry = ry + 1;
    }
    assert(out@.len() == cw * ch * 4) by (nonlinear_arith)
        requires
            out@.len() == ry * cwb,
            ry == ch,
            cwb == 4 * cw,
    ;
    out
}

/// Per-channel 256-bin counts, one bin per 8-bit level.
#[derive(Debug, Clone)]
pub struct Histogram {
    pub r: Vec<u32>,
    pub g: Vec<u32>,
    pub b: Vec<u32>,
}

/// How many of the first `n` pixels of an RGBA8 buffer have level `v` in channel `c`.
pub open spec fn level_count(s: Seq<u8>, n: int, c: int, v: int) -> nat
    decreases n,
{
    if n <= 0 {
        0
    } else {
        level_count(s, n - 1, c, v) + if s[4 * (n - 1) + c] == v {
            1nat
        } else {
            0nat
        }
    }
}

/// The sum of a list of counts.
pub open spec fn total(b: Seq<u32>) -> int
    decreases b.len(),
{
    if b.len() == 0 {
        0
    } else {
        total(b.drop_last()) + b.last()
    }
}

proof fn lemma_level_count_bound(s: Seq<u8>, n: int, c: int, v: int)
    requires
        n >= 0,
    ensures
        level_count(s, n, c, v) <= n,
    decreases n,
{
    if n > 0 {
        lemma_level_count_bound(s, n - 1, c, v);
    }
}

proof fn lemma_total_bump(b: Seq<u32>, k: int, x: u32)
    requires
        0 <= k < b.len(),
        x == b[k] + 1,
    ensures
        total(b.update(k, x)) == total(b) + 1,
    decreases b.len(),
{
    let u = b.update(k, x);
    if k < b.len() - 1 {
        assert(u.drop_last() =~= b.drop_last().update(k, x));
        lemma_total_bump(b.drop_last(), k, x);
    } else {
        assert(u.drop_last() =~= b.drop_last());
    }
}

proof fn lemma_total_zeros(n: nat)
    ensures
        total(Seq::new(n, |k: int| 0u32)) == 0,
    decreases n,
{
    if n > 0 {
        assert(Seq::new(n, |k: int| 0u32).drop_last() =~= Seq::new((n - 1) as nat, |k: int| 0u32));
        lemma_total_zeros((n - 1) as nat);
    }
}

/// One channel's bins for the first `n` pixels.
pub open spec fn bins_ok(bins: Seq<u32>, s: Seq<u8>, n: int, c: int) -> bool {
    &&& bins.len() == 256
    &&& forall|v: int| 0 <= v < 256 ==> #[trigger] bins[v] == level_count(s, n, c, v)
    &&& total(bins) == n
}

/// Adds pixel `p`'s level in channel `c` to `bins`.
fn count_level(bins: &mut Vec<u32>, s: &[u8], p: usize, c: usize)
    requires
        bins_ok(old(bins)@, s@, p as int, c as int),
        4 * p + 4 <= s@.len(),
        c < 4,
        p + 1 <= u32::MAX,
    ensures
        bins_ok(final(bins)@, s@, p + 1, c as int),
{
    let n = s.len();
    let k = s[4 * p + c] as usize;
    proof {
        lemma_level_count_bound(s@, p as int, c as int, k as int);
        lemma_total_bump(bins@, k as int, (bins@[k as int] + 1) as u32);
    }
    let x = bins[k] + 1;
    bins.set(k, x);
    assert forall|v: int| 0 <= v < 256 implies #[trigger] bins@[v] == level_count(s@, p + 1, c as int, v) by {
        assert(4 * (p + 1 - 1) + c == 4 * p + c);
    }
}

/// Counts the R, G and B levels of a tightly packed RGBA8 buffer (alpha and a trailing partial
/// pixel are ignored). Every bin list sums to the number of pixels.
pub fn histogram(rgba: &[u8]) -> (h: Histogram)
    requires
        rgba@.len() / 4 <= u32::MAX,
    ensures
        bins_ok(h.r@, rgba@, (rgba@.len() / 4) as int, 0),
        bins_ok(h.g@, rgba@, (rgba@.len() / 4) as int, 1),
        bins_ok(h.b@, rgba@, (rgba@.len() / 4) as int, 2),
{
    let mut r: Vec<u32> = vec![0u32; 256];
    let mut g: Vec<u32> = vec![0u32; 256];
    let mut b: Vec<u32> = vec![0u32; 256];
    proof {
        assert(r@ =~= Seq::new(256, |k: int| 0u32));
        assert(g@ =~= Seq::new(256, |k: int| 0u32));
        assert(b@ =~= Seq::new(256, |k: int| 0u32));
        lemma_total_zeros(256);
    }
    let n = rgba.len() / 4;
    let mut p: usize = 0;
    while p < n
        invariant
            n == rgba@.len() / 4,
            n <= u32::MAX,
            p <= n,
            bins_ok(r@, rgba@, p as int, 0),
            bins_ok(g@, rgba@, p as int, 1),
            bins_ok(b@, rgba@, p as int, 2),
        decreases n - p,
    {
        count_level(&mut r, rgba, p, 0);
        count_level(&mut g, rgba, p, 1);
        count_level(&mut b, rgba, p, 2);
        p = p + 1;
    }
    Histogram { r, g, b }
}

/// The byte at channel `c` of canvas pixel `(px, py)` when a `w`×`h` image is centred on an
/// `ow`×`oh` canvas of colour `color`.
pub open spec fn framed_at(
    rgba: Seq<u8>,
    w: int,
    h: int,
    color: [u8; 4],
    ow: int,
    oh: int,
    px: int,
    py: int,
    c: int,
) -> u8 {
    let ox = (ow - w) / 2;
    let oy = (oh - h) / 2;
    if ox <= px < ox + w && oy <= py < oy + h {
        rgba_at(rgba, w, px - ox, py - oy, c)
    } else {
        color[c]
    }
}

/// Pushes `n` pixels of `color`.
fn push_color(out: &mut Vec<u8>, color: [u8; 4], n: u32)
    ensures
        final(out)@.len() == old(out)@.len() + 4 * n,
        forall|k: int| 0 <= k < old(out)@.len() ==> #[trigger] final(out)@[k] == old(out)@[k],
        forall|k: int|
            old(out)@.len() <= k < final(out)@.len() ==> #[trigger] final(out)@[k] == color[(k
                - old(out)@.len()) % 4],
{
    let ghost base = old(out)@.len();
    let mut i: u32 = 0;
    while i < n
        invariant
            i <= n,
            out@.len() == base + 4 * i,
            base == old(out)@.len(),
            forall|k: int| 0 <= k < base ==> #[trigger] out@[k] == old(out)@[k],
            forall|k: int| base <= k < out@.len() ==> #[trigger] out@[k] == color[(k - base) % 4],
        decreases n - i,
    {
        out.push(color[0]);
        out.push(color[1]);
        out.push(color[2]);
        out.push(color[3]);
        assert forall|k: int| base <= k < out@.len() implies #[trigger] out@[k] == color[(k - base) % 4] by {
            if k >= base + 4 * i {
                assert((k - base) % 4 == k - base - 4 * i) by (nonlinear_arith)
                    requires
                        base + 4 * i <= k < base + 4 * i + 4,
                ;
            }
        }
        i = i + 1;
    }
}

/// A canvas row through the image: left border, image row `y - oy`, right border.
proof fn lemma_image_row(
    out: Seq<u8>,
    rgba: Seq<u8>,
    row0: int,
    start: int,
    w: int,
    h: int,
    ow: int,
    oh: int,
    y: int,
    color: [u8; 4],
)
    requires
        0 <= w <= ow,
        0 <= h <= oh,
        (oh - h) / 2 <= y < (oh - h) / 2 + h,
        start == (y - (oh - h) / 2) * (4 * w),
        row0 >= 0,
        forall|t: int| 0 <= t < 4 * ((ow - w) / 2) ==> #[trigger] out[row0 + t] == color[t % 4],
        forall|t: int| 0 <= t < 4 * w ==> #[trigger] out[row0 + 4 * ((ow - w) / 2) + t] == rgba[start + t],
        forall|t: int|
            0 <= t < 4 * (ow - (ow - w) / 2 - w) ==> #[trigger] out[row0 + 4 * ((ow - w) / 2) + 4 * w
                + t] == color[t % 4],
    ensures
        forall|px: int, c: int|
            0 <= px < ow && 0 <= c < 4 ==> #[trigger] out[row0 + 4 * px + c] == framed_at(
                rgba,
                w,
                h,
                color,
                ow,
                oh,
                px,
                y,
                c,
            ),
{
    let ox = (ow - w) / 2;
    let iy = y - (oh - h) / 2;
    assert forall|px: int, c: int| 0 <= px < ow && 0 <= c < 4 implies #[trigger] out[row0 + 4 * px + c]
        == framed_at(rgba, w, h, color, ow, oh, px, y, c) by {
        if px < ox {
            assert((4 * px + c) % 4 == c) by (nonlinear_arith)
                requires
                    0 <= c < 4,
                    0 <= px,
            ;
            assert(out[row0 + (4 * px + c)] == color[(4 * px + c) % 4]);
        } else if px < ox + w {
            assert(((iy * w + (px - ox)) * 4 + c) == iy * (4 * w) + 4 * (px - ox) + c) by (nonlinear_arith);
            assert(out[row0 + 4 * ox + (4 * (px - ox) + c)] == rgba[start + (4 * (px - ox) + c)]);
        } else {
            assert((4 * (px - ox - w) + c) % 4 == c) by (nonlinear_arith)
                requires
                    0 <= c < 4,
                    px >= ox + w,
            ;
            assert(out[row0 + 4 * ox + 4 * w + (4 * (px - ox - w) + c)] == color[(4 * (px - ox - w) + c)
                % 4]);
        }
    }
}

/// Centres a tightly packed `w`×`h` RGBA8 image on an `ow`×`oh` canvas filled with `color` (a
/// border, or padding to a target aspect).
pub fn frame_canvas(rgba: &[u8], w: u32, h: u32, color: [u8; 4], ow: u32, oh: u32) -> (out: Vec<u8>)
    requires
        rgba@.len() == 4 * w * h,
        w <= ow,
        h <= oh,
        4 * ow * oh <= u32::MAX,
    ensures
        out@.len() == 4 * ow * oh,
        forall|px: int, py: int, c: int|
            0 <= px < ow && 0 <= py < oh && 0 <= c < 4 ==> #[trigger] rgba_at(out@, ow as int, px, py, c)
                == framed_at(rgba@, w as int, h as int, color, ow as int, oh as int, px, py, c),
{
    let ox = (ow - w) / 2;
    let oy = (oh - h) / 2;
    let mut out: Vec<u8> = Vec::new();
    let mut y: u32 = 0;
    while y < oh
        invariant
            rgba@.len() == 4 * w * h,
            w <= ow,
            h <= oh,
            4 * ow * oh <= u32::MAX,
            ox == (ow - w) / 2,
            oy == (oh - h) / 2,
            y <= oh,
            out@.len() == 4 * ow * y,
            forall|px: int, py: int, c: int|
                0 <= px < ow && 0 <= py < y && 0 <= c < 4 ==> #[trigger] rgba_at(out@, ow as int, px, py, c)
                    == framed_at(rgba@, w as int, h as int, color, ow as int, oh as int, px, py, c),
        decreases oh - y,
    {
        let ghost before = out@;
        let ghost row0 = 4 * ow * y;
        proof {
            assert(4 * ow * (y + 1) <= 4 * ow * oh) by (nonlinear_arith)
                requires
                    y < oh,
            ;
            assert(4 * ow * (y + 1) == 4 * ow * y + 4 * ow) by (nonlinear_arith);
        }
        if oy <= y && y < oy + h {
            push_color(&mut out, color, ox);
            let ghost mid = out@;
            let iy = (y - oy) as usize;
            let rowb = 4 * (w as usize);
            proof {
                assert(4 * ow <= 4 * ow * oh) by (nonlinear_arith)
                    requires
                        oh >= 1,
                ;
                assert(4 * w * h <= 4 * ow * oh) by (nonlinear_arith)
                    requires
                        w <= ow,
                        h <= oh,
                ;
                assert(iy * rowb + rowb <= 4 * w * h) by (nonlinear_arith)
                    requires
                        rowb == 4 * w,
                        iy < h,
                ;
            }
            let start = iy * rowb;
            out.extend_from_slice(&rgba[start..start + rowb]);
            assert(out@ =~= mid + rgba@.subrange(start as int, start + 4 * w));
            let ghost mid2 = out@;
            push_color(&mut out, color, ow - ox - w);
            assert forall|k: int| 0 <= k < row0 implies #[trigger] out@[k] == before[k] by {
                assert(out@[k] == mid2[k]);
                assert(mid2[k] == mid[k]);
            }
            assert forall|t: int| 0 <= t < 4 * ox implies #[trigger] out@[row0 + t] == color[t % 4] by {
                assert(out@[row0 + t] == mid2[row0 + t]);
                assert(mid2[row0 + t] == mid[row0 + t]);
            }
            assert forall|t: int| 0 <= t < 4 * w implies #[trigger] out@[row0 + 4 * ox + t] == rgba@[start + t] by {
                assert(out@[row0 + 4 * ox + t] == mid2[row0 + 4 * ox + t]);
            }
            assert forall|t: int| 0 <= t < 4 * (ow - ox - w) implies #[trigger] out@[row0 + 4 * ox + 4 * w + t]
                == color[t % 4] by {}
            proof {
                lemma_image_row(out@, rgba@, row0, start as int, w as int, h as int, ow as int, oh as int, y as int, color);
            }
        } else {
            push_color(&mut out, color, ow);
            assert forall|k: int| 0 <= k < row0 implies #[trigger] out@[k] == before[k] by {}
            assert forall|px: int, c: int| 0 <= px < ow && 0 <= c < 4 implies #[trigger] out@[row0 + 4 * px + c]
                == framed_at(rgba@, w as int, h as int, color, ow as int, oh as int, px, y as int, c) by {
                assert((4 * px + c) % 4 == c) by (nonlinear_arith)
                    requires
                        0 <= c < 4,
                        0 <= px,
                ;
                assert(out@[row0 + (4 * px + c)] == color[(4 * px + c) % 4]);
            }
        }
        assert forall|px: int, py: int, c: int|
            0 <= px < ow && 0 <= py < y + 1 && 0 <= c < 4 implies #[trigger] rgba_at(out@, ow as int, px, py, c)
                == framed_at(rgba@, w as int, h as int, color, ow as int, oh as int, px, py, c) by {
            assert((py * ow + px) * 4 + c == 4 * ow * py + 4 * px + c) by (nonlinear_arith);
            if py < y {
                assert(4 * ow * py + 4 * px + c < 4 * ow * y) by (nonlinear_arith)
                    requires
                        py < y,
                        px < ow,
                        c < 4,
                ;
                assert(out@[4 * ow * py + 4 * px + c] == before[4 * ow * py + 4 * px + c]);
                assert(rgba_at(before, ow as int, px, py, c) == framed_at(
                    rgba@,
                    w as int,
                    h as int,
                    color,
                    ow as int,
                    oh as int,
                    px,
                    py,
                    c,
                ));
            } else {
                assert(4 * ow * py == row0);
                assert(out@[row0 + 4 * px + c] == framed_at(rgba@, w as int, h as int, color, ow as int, oh as int, px, y as int, c));
            }
        }
        y = y + 1;
    }
    out
}

} // verus!
