use rent::draw::{blend, composite_glyph};

#[test]
fn blend_exact_values() {
    /* black at 128/255 over white: (0*128 + 255*127)/255 = 127 per channel */
    assert_eq!(blend(0xFFFFFF, 0x000000, 128), 0x7F7F7F);
    /* per channel: r (0x10*200 + 0x80*55)/255 = 40, g (0x20*200 + 0x40*55)/255 = 38,
     * b (0x30*200 + 0x00*55)/255 = 37 */
    assert_eq!(blend(0x804000, 0x102030, 200), (40 << 16) | (38 << 8) | 37);
}

#[test]
fn blend_full_and_zero_opacity() {
    assert_eq!(blend(0x123456, 0xABCDEF, 255), 0xABCDEF);
    assert_eq!(blend(0x123456, 0xABCDEF, 0), 0x123456);
    /* the unused top byte is dropped */
    assert_eq!(blend(0xFF123456, 0xABCDEF, 0), 0x123456);
}

#[test]
fn glyph_is_blended_and_clipped() {
    let mut frame = vec![0xFFFFFFu32; 4 * 3];
    /* 3x2 bitmap with its top left at (2, -1): only its second row lands
     * on frame row 0, and only columns 0..2 land inside the frame */
    let cov = [9, 9, 9, 255, 0, 128];
    composite_glyph(&mut frame, 4, 3, 2, -1, 3, 2, &cov, 0x000000);
    let mut want = vec![0xFFFFFFu32; 12];
    want[2] = 0x000000; /* coverage 255 */
    want[3] = 0xFFFFFF; /* coverage 0 is skipped */
    assert_eq!(frame, want);
}

#[test]
fn glyph_outside_frame_changes_nothing() {
    let mut frame = vec![7u32; 6];
    composite_glyph(&mut frame, 3, 2, 10, 10, 2, 2, &[255; 4], 0);
    composite_glyph(&mut frame, 3, 2, -5, 0, 2, 2, &[255; 4], 0);
    assert_eq!(frame, vec![7u32; 6]);
}

#[test]
fn pixels_past_the_frame_are_untouched() {
    /* the buffer is longer than fw * fh: the tail is never written */
    let mut frame = vec![0xFFFFFFu32; 5];
    composite_glyph(&mut frame, 2, 2, 0, 0, 3, 3, &[255; 9], 0);
    assert_eq!(frame, vec![0, 0, 0, 0, 0xFFFFFF]);
}
