use image::ImageEncoder;
use rent::img::{channels, decode_farbfeld, fit_rect, Img};

/* build a farbfeld buffer: every pixel gets the same 16-bit RGBA */
fn farbfeld(w: u32, h: u32, rgba16: [u16; 4]) -> Vec<u8> {
    let mut buf = Vec::new();
    buf.extend_from_slice(b"farbfeld");
    buf.extend_from_slice(&w.to_be_bytes());
    buf.extend_from_slice(&h.to_be_bytes());
    for _ in 0..(w as usize * h as usize) {
        for c in rgba16 {
            buf.extend_from_slice(&c.to_be_bytes());
        }
    }
    buf
}

/* farbfeld from explicit 8-bit RGBA pixels (each sample v becomes v * 257) */
fn farbfeld_pixels(w: u32, h: u32, px: &[[u8; 4]]) -> Vec<u8> {
    let mut buf = Vec::new();
    buf.extend_from_slice(b"farbfeld");
    buf.extend_from_slice(&w.to_be_bytes());
    buf.extend_from_slice(&h.to_be_bytes());
    for p in px {
        for c in p {
            buf.extend_from_slice(&(*c as u16 * 257).to_be_bytes());
        }
    }
    buf
}

#[test]
fn decode_valid_buffer_dims_and_channel_mapping() {
    let (w, h, rgba) = decode_farbfeld(&farbfeld(3, 2, [0xFFFF, 0x0000, 0x8000, 0x0101]))
        .expect("valid farbfeld must decode");
    assert_eq!((w, h), (3, 2));
    assert_eq!(rgba.len(), 3 * 2 * 4);
    for px in rgba.chunks_exact(4) {
        assert_eq!(px[0], 255); /* 0xFFFF -> 255 */
        assert_eq!(px[1], 0); /* 0x0000 -> 0 */
        assert_eq!(px[2], (0x8000u16 / 257) as u8); /* mid value -> v/257 = 127 */
        assert_eq!(px[3], 1); /* 0x0101 / 257 == 1 */
    }
}

#[test]
fn decode_bad_magic_is_error() {
    let mut buf = farbfeld(1, 1, [0, 0, 0, 0]);
    buf[0] = b'F';
    assert!(decode_farbfeld(&buf).is_err());
}

#[test]
fn decode_truncated_pixel_data_is_error() {
    let mut buf = farbfeld(2, 2, [0xFFFF; 4]);
    buf.truncate(buf.len() - 1);
    assert!(decode_farbfeld(&buf).is_err());
    /* header only, pixels missing entirely */
    assert!(decode_farbfeld(&farbfeld(2, 2, [0; 4])[..16]).is_err());
}

#[test]
fn decode_short_header_is_error() {
    assert!(decode_farbfeld(b"").is_err());
    assert!(decode_farbfeld(b"farbfeld").is_err());
    assert!(decode_farbfeld(&b"farbfeld\x00\x00\x00\x01"[..]).is_err());
}

#[test]
fn decode_error_messages() {
    assert_eq!(decode_farbfeld(b"farbfelt\0\0\0\0\0\0\0\0").unwrap_err(), "no valid farbfeld header");
    assert_eq!(decode_farbfeld(b"farb").unwrap_err(), "no valid farbfeld header");
    assert_eq!(
        decode_farbfeld(&farbfeld(2, 2, [0; 4])[..20]).unwrap_err(),
        "truncated farbfeld data"
    );
}

#[test]
fn decode_huge_dimensions_is_truncated_not_a_crash() {
    let mut buf = b"farbfeld".to_vec();
    buf.extend_from_slice(&u32::MAX.to_be_bytes());
    buf.extend_from_slice(&u32::MAX.to_be_bytes());
    buf.extend_from_slice(&[0; 64]);
    assert_eq!(decode_farbfeld(&buf).unwrap_err(), "truncated farbfeld data");
}

#[test]
fn decode_zero_size_image() {
    let (w, h, rgba) = decode_farbfeld(&farbfeld(0, 5, [1, 2, 3, 4])).unwrap();
    assert_eq!((w, h), (0, 5));
    assert!(rgba.is_empty());
}

#[test]
fn decode_extra_trailing_bytes_are_ignored() {
    let mut buf = farbfeld(1, 1, [0x0202, 0x0303, 0x0404, 0xFFFF]);
    buf.extend_from_slice(&[9, 9, 9]);
    let (_, _, rgba) = decode_farbfeld(&buf).unwrap();
    assert_eq!(rgba, vec![2, 3, 4, 255]);
}

#[test]
fn fit_wide_image_limited_by_width() {
    /* 2:1 image into a square: width is the binding constraint */
    assert_eq!(fit_rect(200, 100, 100, 100), (100, 50));
}

#[test]
fn fit_tall_image_limited_by_height() {
    /* 1:2 image into a square: height is the binding constraint */
    assert_eq!(fit_rect(100, 200, 100, 100), (50, 100));
}

#[test]
fn fit_exact_passthrough() {
    assert_eq!(fit_rect(123, 45, 123, 45), (123, 45));
    /* same aspect, integer upscale */
    assert_eq!(fit_rect(100, 50, 200, 100), (200, 100));
}

#[test]
fn fit_zero_dimension_gives_zero() {
    assert_eq!(fit_rect(0, 100, 50, 50), (0, 0));
    assert_eq!(fit_rect(100, 0, 50, 50), (0, 0));
    assert_eq!(fit_rect(100, 100, 0, 50), (0, 0));
    assert_eq!(fit_rect(100, 100, 50, 0), (0, 0));
}

#[test]
fn fit_result_bounded_and_aspect_preserved() {
    let cases: &[(u32, u32, u32, u32)] = &[
        (1920, 1080, 800, 600),
        (1080, 1920, 800, 600),
        (1, 1000, 500, 500),
        (1000, 1, 500, 500),
        (640, 480, 640, 480),
        (3, 7, 1000, 1000),
        (7, 3, 13, 17),
    ];
    for &(bw, bh, uw, uh) in cases {
        let (w, h) = fit_rect(bw, bh, uw, uh);
        assert!(w <= uw && h <= uh, "({bw},{bh}) into ({uw},{uh}) gave ({w},{h})");
        /* one side always fills the usable area exactly */
        assert!(w == uw || h == uh, "({bw},{bh}) into ({uw},{uh}) gave ({w},{h})");
        /* aspect preserved within integer truncation: the scaled side is
         * floor(exact), so w*bh <= h*bw + bw and h*bw <= w*bh + bh */
        let (wbh, hbw) = (w as u64 * bh as u64, h as u64 * bw as u64);
        assert!(
            wbh <= hbw + bw as u64 && hbw <= wbh + bh as u64,
            "aspect drift: ({bw},{bh}) into ({uw},{uh}) gave ({w},{h})"
        );
    }
}

#[test]
fn fit_rounds_scaled_side_down() {
    assert_eq!(fit_rect(1920, 1080, 800, 600), (800, 450));
    assert_eq!(fit_rect(1, 1000, 500, 500), (0, 500));
    assert_eq!(fit_rect(7, 3, 13, 17), (13, 5));
    assert_eq!(fit_rect(u32::MAX, u32::MAX, u32::MAX, 1), (1, 1));
}

#[test]
fn channels_of_color() {
    assert_eq!(channels(0x12_34_56), (0x12, 0x34, 0x56));
    assert_eq!(channels(0xFF_AB_CD_EF), (0xAB, 0xCD, 0xEF));
}

#[test]
fn load_farbfeld_blends_over_white_and_draws_scaled() {
    /* 2x1: opaque red, fully transparent black (becomes white) */
    let data = farbfeld_pixels(2, 1, &[[255, 0, 0, 255], [0, 0, 0, 0]]);
    let mut img = Img::load("pic.ff", &data).expect("valid image");
    let mut frame = vec![0x0101_0101u32; 8 * 4];
    /* usable 4x4 in an 8x4 frame: fit is 4x2, centered at (2, 1) */
    img.draw(&mut frame, 8, 4, 4, 4);
    let red = 0xFF0000;
    let white = 0xFFFFFF;
    let bg = 0x0101_0101;
    let want = vec![
        bg, bg, bg, bg, bg, bg, bg, bg,
        bg, bg, red, red, white, white, bg, bg,
        bg, bg, red, red, white, white, bg, bg,
        bg, bg, bg, bg, bg, bg, bg, bg,
    ];
    assert_eq!(frame, want);
}

#[test]
fn half_transparent_pixel_mixes_with_background() {
    /* black at alpha 128 over white: (0*128 + 255*127)/255 = 127 */
    let data = farbfeld_pixels(1, 1, &[[0, 0, 0, 128]]);
    let mut img = Img::load("p.ff", &data).unwrap();
    let mut frame = vec![0u32; 1];
    img.draw(&mut frame, 1, 1, 1, 1);
    assert_eq!(frame, vec![0x7F7F7F]);
}

#[test]
fn redraw_after_invalidate_gives_same_frame() {
    let data = farbfeld_pixels(2, 2, &[[1, 2, 3, 255], [4, 5, 6, 255], [7, 8, 9, 255], [10, 11, 12, 255]]);
    let mut img = Img::load("p.ff", &data).unwrap();
    let mut a = vec![0u32; 9 * 7];
    img.draw(&mut a, 9, 7, 5, 6);
    let mut b = a.clone();
    img.draw(&mut b, 9, 7, 5, 6);
    assert_eq!(a, b);
    img.invalidate();
    let mut c = vec![0u32; 9 * 7];
    img.draw(&mut c, 9, 7, 5, 6);
    assert_eq!(a, c);
    /* 2x2 into 5x6 -> 5x5 at (2, 1), nearest neighbour */
    assert_eq!(c[1 * 9 + 2], 0x010203);
    assert_eq!(c[1 * 9 + 4], 0x010203);
    assert_eq!(c[1 * 9 + 5], 0x040506);
    assert_eq!(c[5 * 9 + 6], 0x0A0B0C);
    assert_eq!(c[0], 0);
}

#[test]
fn empty_fit_draws_nothing() {
    let data = farbfeld_pixels(1, 1000, &vec![[0, 0, 0, 255]; 1000]);
    let mut img = Img::load("tall.ff", &data).unwrap();
    let mut frame = vec![5u32; 500 * 500];
    img.draw(&mut frame, 500, 500, 500, 500);
    assert!(frame.iter().all(|&p| p == 5));
}

#[test]
fn load_reports_farbfeld_errors_with_path() {
    let data = &farbfeld(2, 2, [0; 4])[..20];
    let err = Img::load("slides/pic.ff", data).err().unwrap();
    assert_eq!(err, "rent: 'slides/pic.ff': truncated farbfeld data");
}

#[test]
fn load_reports_undecodable_data_with_path() {
    let err = Img::load("notes.txt", b"this is not an image").err().unwrap();
    let cause = image::load_from_memory(b"this is not an image").err().unwrap().to_string();
    assert_eq!(err, format!("rent: unable to decode 'notes.txt': {cause}"));
}

#[test]
fn load_decodes_png_through_image_crate() {
    let pixels: [u8; 8] = [0, 0, 255, 255, 0, 255, 0, 0];
    let mut png = Vec::new();
    image::codecs::png::PngEncoder::new(&mut png)
        .write_image(&pixels, 2, 1, image::ExtendedColorType::Rgba8)
        .unwrap();
    let mut img = Img::load("p.png", &png).expect("png decodes");
    let mut frame = vec![0u32; 2];
    img.draw(&mut frame, 2, 1, 2, 1);
    /* opaque blue; transparent green becomes the white background */
    assert_eq!(frame, vec![0x0000FF, 0xFFFFFF]);
}

#[test]
fn empty_fit_accepts_any_frame() {
    let data = farbfeld_pixels(1, 1000, &vec![[0, 0, 0, 255]; 1000]);
    let mut img = Img::load("tall.ff", &data).unwrap();
    let mut frame: Vec<u32> = Vec::new();
    img.draw(&mut frame, 500, 500, 500, 500);
    assert!(frame.is_empty());
    let mut frame = vec![3u32; 4];
    img.draw(&mut frame, 2, 2, 0, 0);
    assert_eq!(frame, vec![3u32; 4]);
}
