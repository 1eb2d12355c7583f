use darkroom_core::encode::{histogram_checked, histogram_from_jpeg, resize_rgba8_to, rgb_of_rgba, rgba8_to_jpeg, rgba8_to_png, PipelineError};

fn image(w: u32, h: u32) -> Vec<u8> {
    let mut v = Vec::new();
    for i in 0..w * h {
        v.extend_from_slice(&[(i * 40 % 256) as u8, 200, 7, 255]);
    }
    v
}

#[test]
fn png_round_trips_through_the_histogram() {
    let px = image(4, 3);
    let png = rgba8_to_png(&px, 4, 3).expect("png encodes");
    assert_eq!(&png[..8], b"\x89PNG\r\n\x1a\n");
    let h = histogram_from_jpeg(&png).expect("png decodes");
    assert_eq!(h.g[200], 12);
    assert_eq!(h.b[7], 12);
    assert_eq!(h.r.iter().sum::<u32>(), 12);
}

#[test]
fn jpeg_is_written_from_rgb() {
    let px = image(8, 8);
    let jpg = rgba8_to_jpeg(&px, 8, 8, 90).expect("jpeg encodes");
    assert_eq!(&jpg[..2], &[0xFF, 0xD8]);
    let h = histogram_from_jpeg(&jpg).expect("jpeg decodes");
    assert_eq!(h.r.iter().sum::<u32>(), 64);
}

#[test]
fn alpha_is_dropped_for_jpeg() {
    assert_eq!(rgb_of_rgba(&[1, 2, 3, 4, 5, 6, 7, 8, 9]), vec![1, 2, 3, 5, 6, 7]);
}

#[test]
fn undecodable_bytes_have_no_histogram() {
    assert!(histogram_from_jpeg(b"not an image").is_none());
}

#[test]
fn oversized_jpeg_is_refused_by_the_codec() {
    let px = vec![0u8; 4 * 70000];
    assert!(matches!(rgba8_to_jpeg(&px, 70000, 1, 80), Err(PipelineError::Image(_))));
}

#[test]
fn resize_downscales_only_oversized_buffers() {
    // A uniform 8×4 image scaled to a 4-pixel longest edge: 4×2, still uniform.
    let px: Vec<u8> = (0..8 * 4).flat_map(|_| [90u8, 120, 30, 255]).collect();
    let (out, w, h) = resize_rgba8_to(&px, 8, 4, 4, 4, 2);
    assert_eq!((w, h), (4, 2));
    assert_eq!(out.len(), 4 * 4 * 2);
    assert!(out.chunks(4).all(|p| p == [90, 120, 30, 255]));
    // Within the limit, empty, or a length that does not match: unchanged.
    assert_eq!(resize_rgba8_to(&px, 8, 4, 8, 4, 2), (px.clone(), 8, 4));
    assert_eq!(resize_rgba8_to(&px[..12], 8, 4, 4, 4, 2), (px[..12].to_vec(), 8, 4));
    assert_eq!(resize_rgba8_to(&[], 0, 4, 2, 1, 1), (vec![], 0, 4));
}

#[test]
fn decoded_pixels_are_counted_per_channel() {
    let h = histogram_checked(&[1, 2, 3, 255, 1, 9, 3, 0, 7]).expect("two pixels fit");
    assert_eq!((h.r[1], h.g[2], h.g[9], h.b[3]), (2, 1, 1, 2));
    assert_eq!(h.r.iter().sum::<u32>(), 2);
}
