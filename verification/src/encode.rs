//! Encoding rendered RGBA8 buffers to PNG / JPEG, and histograms of encoded thumbnails. The codecs
//! are the `image` crate's; what this module adds is checked around them.

use vstd::prelude::*;

use crate::pixels::{bins_ok, histogram, Histogram};
use image::ImageEncoder;

verus! {

#[verifier::external_type_specification]
#[verifier::external_body]
pub struct ExImageError(image::ImageError);

/// Errors of the develop pipeline.
#[derive(Debug)]
pub enum PipelineError {
    /// No compatible GPU adapter.
    NoAdapter,
    /// The GPU device could not be requested.
    Device(String),
    /// The image exceeds the GPU's maximum texture dimension.
    ImageTooLarge { w: u32, h: u32, max: u32 },
    /// A read-back buffer could not be mapped.
    MapBuffer(String),
    /// The raw decoder failed (its message).
    Raw(String),
    /// The image codec failed.
    Image(image::ImageError),
}

/// The PNG file the `image` crate writes for a `w`×`h` RGBA8 buffer, or none when it refuses.
pub uninterp spec fn png_file(rgba: Seq<u8>, w: u32, h: u32) -> Option<Seq<u8>>;

/// The JPEG file the `image` crate writes for a `w`×`h` RGB8 buffer at `quality`, or none when it
/// refuses.
pub uninterp spec fn jpeg_file(rgb: Seq<u8>, w: u32, h: u32, quality: u8) -> Option<Seq<u8>>;

/// `PngEncoder::write_image` with `ExtendedColorType::Rgba8`. Claimed: it returns the named
/// encoding, which depends on the pixels and the size alone; a buffer of the wrong length makes it
/// panic, so that is excluded.
#[verifier::external_body]
fn encode_png(rgba: &[u8], w: u32, h: u32) -> (r: Result<Vec<u8>, image::ImageError>)
    requires
        rgba@.len() == 4 * w * h,
    ensures
        match r {
            Ok(v) => png_file(rgba@, w, h) == Some(v@),
            Err(_) => png_file(rgba@, w, h) is None,
        },
{
    let mut buf = Vec::new();
    image::codecs::png::PngEncoder::new(&mut buf).write_image(
        rgba,
        w,
        h,
        image::ExtendedColorType::Rgba8,
    )?;
    Ok(buf)
}

/// `JpegEncoder::new_with_quality` then `encode` with `ExtendedColorType::Rgb8`. Claimed: it
/// returns the named encoding, which depends on the pixels, the size and the quality alone; a
/// buffer of the wrong length makes it panic, so that is excluded.
#[verifier::external_body]
fn encode_jpeg_rgb(rgb: &[u8], w: u32, h: u32, quality: u8) -> (r: Result<
    Vec<u8>,
    image::ImageError,
>)
    requires
        rgb@.len() == 3 * w * h,
    ensures
        match r {
            Ok(v) => jpeg_file(rgb@, w, h, quality) == Some(v@),
            Err(_) => jpeg_file(rgb@, w, h, quality) is None,
        },
{
    let mut buf = Vec::new();
    let mut enc = image::codecs::jpeg::JpegEncoder::new_with_quality(&mut buf, quality);
    enc.encode(rgb, w, h, image::ExtendedColorType::Rgb8)?;
    Ok(buf)
}

/// `image::load_from_memory` then `to_rgba8`: the RGBA8 pixels of an encoded image, or none when
/// it does not decode. Nothing is claimed of the pixels: the JPEG decoder picks its transform and
/// upsampling code by the processor it runs on, and its documentation does not promise that every
/// choice gives the same pixels. Also unsaid: that no decoder panics on malformed bytes; `image`
/// documents decoding failures as errors, but the decoders' sources were not read to the end.
#[verifier::external_body]
fn decode_rgba8(bytes: &[u8]) -> (r: Option<Vec<u8>>)
{
    image::load_from_memory(bytes).ok().map(|img| img.to_rgba8().into_raw())
}

/// Encodes a tightly packed `w`×`h` RGBA8 buffer as PNG.
pub fn rgba8_to_png(rgba: &[u8], w: u32, h: u32) -> (r: Result<Vec<u8>, PipelineError>)
    requires
        rgba@.len() == 4 * w * h,
    ensures
        match png_file(rgba@, w, h) {
            Some(f) => r matches Ok(v) && v@ == f,
            None => r matches Err(PipelineError::Image(_)),
        },
{
    match encode_png(rgba, w, h) {
        Ok(v) => Ok(v),
        Err(e) => Err(PipelineError::Image(e)),
    }
}

/// The RGB bytes of an RGBA8 buffer: alpha dropped, a trailing partial pixel ignored.
pub open spec fn drop_alpha(s: Seq<u8>) -> Seq<u8> {
    Seq::new((s.len() / 4 * 3) as nat, |k: int| s[4 * (k / 3) + k % 3])
}

/// Drops the alpha channel of an RGBA8 buffer.
pub fn rgb_of_rgba(rgba: &[u8]) -> (rgb: Vec<u8>)
    ensures
        rgb@ == drop_alpha(rgba@),
{
    let len = rgba.len();
    let n = len / 4;
    let mut rgb: Vec<u8> = Vec::new();
    let mut p: usize = 0;
    while p < n
        invariant
            len == rgba@.len(),
            n == rgba@.len() / 4,
            p <= n,
            rgb@.len() == 3 * p,
            forall|k: int| 0 <= k < 3 * p ==> #[trigger] rgb@[k] == rgba@[4 * (k / 3) + k % 3],
        decreases n - p,
    {
        rgb.push(rgba[4 * p]);
        rgb.push(rgba[4 * p + 1]);
        rgb.push(rgba[4 * p + 2]);
        assert forall|k: int| 0 <= k < 3 * (p + 1) implies #[trigger] rgb@[k] == rgba@[4 * (k / 3)
            + k % 3] by {
            if k >= 3 * p {
                assert(k / 3 == p);
            }
        }
        p = p + 1;
    }
    assert(rgb@ =~= drop_alpha(rgba@));
    rgb
}

/// Encodes a tightly packed `w`×`h` RGBA8 buffer as JPEG at `quality` (JPEG is opaque: alpha is
/// dropped).
pub fn rgba8_to_jpeg(rgba: &[u8], w: u32, h: u32, quality: u8) -> (r: Result<
    Vec<u8>,
    PipelineError,
>)
    requires
        rgba@.len() == 4 * w * h,
    ensures
        match jpeg_file(drop_alpha(rgba@), w, h, quality) {
            Some(f) => r matches Ok(v) && v@ == f,
            None => r matches Err(PipelineError::Image(_)),
        },
{
    let rgb = rgb_of_rgba(rgba);
    assert(rgb@.len() == 3 * w * h) by (nonlinear_arith)
        requires
            rgb@.len() == rgba@.len() / 4 * 3,
            rgba@.len() == 4 * w * h,
    ;
    match encode_jpeg_rgb(rgb.as_slice(), w, h, quality) {
        Ok(v) => Ok(v),
        Err(e) => Err(PipelineError::Image(e)),
    }
}

/// Some pixel buffer's histogram: each channel's bins count that buffer's levels.
pub open spec fn histogram_of_some(h: Histogram) -> bool {
    exists|px: Seq<u8>|
        px.len() / 4 <= u32::MAX && bins_ok(h.r@, px, (px.len() / 4) as int, 0) && bins_ok(
            h.g@,
            px,
            (px.len() / 4) as int,
            1,
        ) && bins_ok(h.b@, px, (px.len() / 4) as int, 2)
}

/// Counts the levels of decoded RGBA8 pixels; `None` when there are more pixels than a bin can
/// count.
pub fn histogram_checked(px: &[u8]) -> (r: Option<Histogram>)
    ensures
        px@.len() / 4 <= u32::MAX ==> (r matches Some(h) && bins_ok(h.r@, px@, (px@.len() / 4) as int, 0)
            && bins_ok(h.g@, px@, (px@.len() / 4) as int, 1) && bins_ok(h.b@, px@, (px@.len() / 4) as int, 2)),
        px@.len() / 4 > u32::MAX ==> r is None,
{
    if px.len() / 4 > u32::MAX as usize {
        None
    } else {
        Some(histogram(px))
    }
}

/// Decodes an encoded image (e.g. a cached JPEG thumbnail) and counts its levels; `None` when it
/// does not decode, or when it holds more pixels than a bin can count. The bytes go to the decoder
/// unchanged, and whatever pixels it gives are counted by [`histogram_checked`]: a `Some` holds
/// their exact histogram.
pub fn histogram_from_jpeg(bytes: &[u8]) -> (r: Option<Histogram>)
    ensures
        r matches Some(h) ==> histogram_of_some(h),
{
    match decode_rgba8(bytes) {
        None => None,
        Some(px) => histogram_checked(px.as_slice()),
    }
}

/// `RgbaImage::from_raw` then `imageops::resize` (Lanczos3) and `into_raw`. Claimed: `from_raw`
/// accepts a buffer of exactly `4·w·h` bytes, and the resized buffer holds `nw`×`nh` pixels.
/// Nothing is claimed of the pixel values: the filter evaluates `sin`, whose precision std leaves
/// to the platform.
#[verifier::external_body]
fn lanczos_resize(rgba: &[u8], w: u32, h: u32, nw: u32, nh: u32) -> (r: Option<Vec<u8>>)
    requires
        rgba@.len() == 4 * w * h,
        nw >= 1,
        nh >= 1,
    ensures
        r is Some,
        r->0@.len() == 4 * nw * nh,
{
    image::RgbaImage::from_raw(w, h, rgba.to_vec()).map(
        |img| image::imageops::resize(&img, nw, nh, image::imageops::FilterType::Lanczos3).into_raw(),
    )
}

/// The buffer needs no resampling: its longest edge is within `max_edge`, it is empty, or its
/// length does not match its size.
pub open spec fn keeps_size(len: int, w: u32, h: u32, max_edge: u32) -> bool {
    (w <= max_edge && h <= max_edge) || w == 0 || h == 0 || len != 4 * w * h
}

/// Downscales a tightly packed RGBA8 buffer to `nw`×`nh` (Lanczos3) when its longest edge exceeds
/// `max_edge`; returns it unchanged when already within `max_edge` or on a size/length mismatch.
pub fn resize_rgba8_to(rgba: &[u8], w: u32, h: u32, max_edge: u32, nw: u32, nh: u32) -> (r: (
    Vec<u8>,
    u32,
    u32,
))
    requires
        nw >= 1,
        nh >= 1,
        (w <= max_edge && h <= max_edge) || w == 0 || h == 0 || 4 * w * h <= u32::MAX,
    ensures
        keeps_size(rgba@.len() as int, w, h, max_edge) ==> r.0@ == rgba@ && r.1 == w && r.2 == h,
        !keeps_size(rgba@.len() as int, w, h, max_edge) ==> r.1 == nw && r.2 == nh && r.0@.len() == 4
            * nw * nh,
{
    let longest = if w > h {
        w
    } else {
        h
    };
    if longest <= max_edge || w == 0 || h == 0 {
        return (vstd::slice::slice_to_vec(rgba), w, h);
    }
    assert(w * h <= w * h * 4 && w * h * 4 == 4 * w * h) by (nonlinear_arith);
    if rgba.len() != (w * h * 4) as usize {
        return (vstd::slice::slice_to_vec(rgba), w, h);
    }
    match lanczos_resize(rgba, w, h, nw, nh) {
        Some(v) => (v, nw, nh),
        None => (vstd::slice::slice_to_vec(rgba), w, h),
    }
}

} // verus!
