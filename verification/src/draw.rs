//! Pixels of a 0xRRGGBB frame buffer: channel arithmetic, alpha blending of
//! the text color, and compositing of glyph coverage bitmaps.
use vstd::prelude::*;

verus! {

/// Red channel of a 0xRRGGBB color.
pub open spec fn red(c: u32) -> int {
    (c / 65536) as int % 256
}

/// Green channel of a 0xRRGGBB color.
pub open spec fn green(c: u32) -> int {
    (c / 256) as int % 256
}

/// Blue channel of a 0xRRGGBB color.
pub open spec fn blue(c: u32) -> int {
    c as int % 256
}

/// The 0xRRGGBB color with the given channels.
pub open spec fn rgb(r: int, g: int, b: int) -> int {
    r * 65536 + g * 256 + b
}

/// A channel of `fg` laid with opacity `a` (out of 255) over `bg`.
pub open spec fn mix(fg: int, bg: int, a: int) -> int {
    (fg * a + bg * (255 - a)) / 255
}

/// `fg` laid with opacity `a` (out of 255) over `dst`, channel by channel.
pub open spec fn spec_blend(dst: u32, fg: u32, a: u32) -> u32 {
    rgb(
        mix(red(fg), red(dst), a as int),
        mix(green(fg), green(dst), a as int),
        mix(blue(fg), blue(dst), a as int),
    ) as u32
}

pub proof fn lemma_channels(c: u32)
    ensures
        (c >> 16u32) & 0xFFu32 == red(c),
        (c >> 8u32) & 0xFFu32 == green(c),
        c & 0xFFu32 == blue(c),
        c % 16777216 == rgb(red(c), green(c), blue(c)),
{
    assert((c >> 16u32) & 0xFFu32 == (c / 65536) % 256) by (bit_vector);
    assert((c >> 8u32) & 0xFFu32 == (c / 256) % 256) by (bit_vector);
    assert(c & 0xFFu32 == c % 256) by (bit_vector);
    assert(c % 16777216 == ((c / 65536) % 256) * 65536 + ((c / 256) % 256) * 256 + c % 256)
        by (bit_vector);
}

pub proof fn lemma_pack(r: u32, g: u32, b: u32)
    requires
        r < 256,
        g < 256,
        b < 256,
    ensures
        (r << 16u32) | (g << 8u32) | b == rgb(r as int, g as int, b as int),
        rgb(r as int, g as int, b as int) < 16777216,
        red(rgb(r as int, g as int, b as int) as u32) == r,
        green(rgb(r as int, g as int, b as int) as u32) == g,
        blue(rgb(r as int, g as int, b as int) as u32) == b,
{
    assert((r << 16u32) | (g << 8u32) | b == r * 65536 + g * 256 + b) by (bit_vector)
        requires
            r < 256,
            g < 256,
            b < 256,
    ;
    let v: u32 = (r * 65536 + g * 256 + b) as u32;
    assert(v / 65536 == r && (v / 256) % 256 == g && v % 256 == b) by (nonlinear_arith)
        requires
            r < 256,
            g < 256,
            b < 256,
            v == r * 65536 + g * 256 + b,
    ;
    assert(((v / 65536) as int) % 256 == r);
}

pub proof fn lemma_mix_bound(fg: int, bg: int, a: int)
    requires
        0 <= fg < 256,
        0 <= bg < 256,
        0 <= a <= 255,
    ensures
        0 <= mix(fg, bg, a) < 256,
        a == 255 ==> mix(fg, bg, a) == fg,
        a == 0 ==> mix(fg, bg, a) == bg,
{
    assert(0 <= fg * a + bg * (255 - a) <= 255 * 255) by (nonlinear_arith)
        requires
            0 <= fg < 256,
            0 <= bg < 256,
            0 <= a <= 255,
    ;
    assert((fg * 255 + bg * 0) / 255 == fg) by (nonlinear_arith);
    assert((fg * 0 + bg * 255) / 255 == bg) by (nonlinear_arith);
}

/// Lays the color `fg` with opacity `a` (out of 255) over `dst`.
pub fn blend(dst: u32, fg: u32, a: u32) -> (r: u32)
    requires
        a <= 255,
    ensures
        r == spec_blend(dst, fg, a),
        r < 16777216,
{
    proof {
        lemma_channels(dst);
        lemma_channels(fg);
        lemma_mix_bound(red(fg), red(dst), a as int);
        lemma_mix_bound(green(fg), green(dst), a as int);
        lemma_mix_bound(blue(fg), blue(dst), a as int);
    }
    let na = 255 - a;
    let r = (((fg >> 16) & 0xFF) * a + ((dst >> 16) & 0xFF) * na) / 255;
    let g = (((fg >> 8) & 0xFF) * a + ((dst >> 8) & 0xFF) * na) / 255;
    let b = ((fg & 0xFF) * a + (dst & 0xFF) * na) / 255;
    proof {
        lemma_pack(r, g, b);
    }
    (r << 16) | (g << 8) | b
}

/// Full opacity gives the foreground, zero opacity keeps the background
/// (both without the unused top byte).
pub proof fn lemma_blend_extremes(dst: u32, fg: u32)
    ensures
        spec_blend(dst, fg, 255) == fg % 16777216,
        spec_blend(dst, fg, 0) == dst % 16777216,
{
    lemma_channels(dst);
    lemma_channels(fg);
    lemma_mix_bound(red(fg), red(dst), 255);
    lemma_mix_bound(green(fg), green(dst), 255);
    lemma_mix_bound(blue(fg), blue(dst), 255);
    lemma_mix_bound(red(fg), red(dst), 0);
    lemma_mix_bound(green(fg), green(dst), 0);
    lemma_mix_bound(blue(fg), blue(dst), 0);
}

/// A mixed channel is the weighted mean of the two channels, rounded down.
pub proof fn lemma_mix_floor(fg: int, bg: int, a: int)
    requires
        0 <= fg < 256,
        0 <= bg < 256,
        0 <= a <= 255,
    ensures
        mix(fg, bg, a) * 255 <= fg * a + bg * (255 - a) < mix(fg, bg, a) * 255 + 255,
{
    let x = fg * a + bg * (255 - a);
    assert(0 <= x) by (nonlinear_arith)
        requires
            x == fg * a + bg * (255 - a),
            0 <= fg < 256,
            0 <= bg < 256,
            0 <= a <= 255,
    ;
    vstd::arithmetic::div_mod::lemma_fundamental_div_mod(x, 255);
    vstd::arithmetic::div_mod::lemma_mod_bound(x, 255);
}

/// The byte of a 0xRRGGBB color at `shift` (65536 red, 256 green, 1 blue).
proof fn lemma_byte_is_channel(c: u32, shift: int)
    requires
        shift == 65536 || shift == 256 || shift == 1,
    ensures
        (c as int / shift) % 256 == (if shift == 65536 {
            red(c)
        } else if shift == 256 {
            green(c)
        } else {
            blue(c)
        }),
        0 <= (c as int / shift) % 256 < 256,
{
}

/// Blending at any opacity `a` from 0 to 255: each channel of the result,
/// read out of the 0xRRGGBB word at `shift` (65536 red, 256 green, 1 blue),
/// is `(fg * a + dst * (255 - a)) / 255` rounded down, taken over the same
/// channel of the foreground and of the pixel below; nothing is left above
/// the three channels.
pub proof fn lemma_blend_channel(dst: u32, fg: u32, a: u32, shift: int)
    requires
        a <= 255,
        shift == 65536 || shift == 256 || shift == 1,
    ensures
        ({
            let out = (spec_blend(dst, fg, a) as int / shift) % 256;
            let f = (fg as int / shift) % 256;
            let d = (dst as int / shift) % 256;
            out * 255 <= f * a + d * (255 - a) < out * 255 + 255
        }),
        spec_blend(dst, fg, a) < 16777216,
{
    let mr = mix(red(fg), red(dst), a as int);
    let mg = mix(green(fg), green(dst), a as int);
    let mb = mix(blue(fg), blue(dst), a as int);
    lemma_mix_bound(red(fg), red(dst), a as int);
    lemma_mix_bound(green(fg), green(dst), a as int);
    lemma_mix_bound(blue(fg), blue(dst), a as int);
    lemma_mix_floor(red(fg), red(dst), a as int);
    lemma_mix_floor(green(fg), green(dst), a as int);
    lemma_mix_floor(blue(fg), blue(dst), a as int);
    lemma_pack(mr as u32, mg as u32, mb as u32);
    let r = spec_blend(dst, fg, a);
    assert(r == rgb(mr, mg, mb));
    lemma_byte_is_channel(r, shift);
    lemma_byte_is_channel(fg, shift);
    lemma_byte_is_channel(dst, shift);
}

/// More coverage never moves a channel away from the foreground: where the
/// foreground channel is at most the pixel's (a darker text color), raising
/// the opacity from `a1` to `a2` never makes that channel of the result
/// lighter, and where it is at least the pixel's, never darker.
pub proof fn lemma_blend_monotone(dst: u32, fg: u32, a1: u32, a2: u32, shift: int)
    requires
        a1 <= a2 <= 255,
        shift == 65536 || shift == 256 || shift == 1,
    ensures
        ({
            let f = (fg as int / shift) % 256;
            let d = (dst as int / shift) % 256;
            let o1 = (spec_blend(dst, fg, a1) as int / shift) % 256;
            let o2 = (spec_blend(dst, fg, a2) as int / shift) % 256;
            &&& f <= d ==> o2 <= o1
            &&& d <= f ==> o1 <= o2
        }),
{
    lemma_blend_channel(dst, fg, a1, shift);
    lemma_blend_channel(dst, fg, a2, shift);
    let f = (fg as int / shift) % 256;
    let d = (dst as int / shift) % 256;
    lemma_byte_is_channel(fg, shift);
    lemma_byte_is_channel(dst, shift);
    let x1 = f * a1 + d * (255 - a1);
    let x2 = f * a2 + d * (255 - a2);
    assert(f <= d ==> x2 <= x1) by (nonlinear_arith)
        requires
            a1 <= a2,
            x1 == f * a1 + d * (255 - a1),
            x2 == f * a2 + d * (255 - a2),
    ;
    assert(d <= f ==> x1 <= x2) by (nonlinear_arith)
        requires
            a1 <= a2,
            x1 == f * a1 + d * (255 - a1),
            x2 == f * a2 + d * (255 - a2),
    ;
}


/// The coverage (0 when outside) of the glyph cell at `row`, `col` of a
/// `gw` x `gh` coverage bitmap stored row by row.
pub open spec fn coverage_at(cov: Seq<u8>, gw: int, gh: int, row: int, col: int) -> int {
    if 0 <= row < gh && 0 <= col < gw {
        cov[row * gw + col] as int
    } else {
        0
    }
}

/// The glyph coverage that lands on frame pixel `i` of a `fw`-wide frame
/// when the bitmap's top left corner is at (`gx`, `gtop`).
pub open spec fn glyph_alpha(
    cov: Seq<u8>,
    gw: int,
    gh: int,
    fw: int,
    gx: int,
    gtop: int,
    i: int,
) -> int {
    coverage_at(cov, gw, gh, i / fw - gtop, i % fw - gx)
}

/// The frame after laying the glyph bitmap in color `fg` over it: each
/// pixel inside the `fw` x `fh` frame that the bitmap covers with a non-zero
/// coverage is blended, every other one is kept.
pub open spec fn spec_composite(
    frame: Seq<u32>,
    fw: int,
    fh: int,
    gx: int,
    gtop: int,
    gw: int,
    gh: int,
    cov: Seq<u8>,
    fg: u32,
) -> Seq<u32> {
    Seq::new(
        frame.len(),
        |i: int|
            {
                let a = glyph_alpha(cov, gw, gh, fw, gx, gtop, i);
                if i < fw * fh && a != 0 {
                    spec_blend(frame[i], fg, a as u32)
                } else {
                    frame[i]
                }
            },
    )
}

/// Row and column of a frame index.
pub proof fn lemma_row_col(i: int, fw: int, fh: int)
    requires
        0 <= i,
        0 < fw,
    ensures
        i == fw * (i / fw) + i % fw,
        0 <= i % fw < fw,
        0 <= i / fw,
        i < fw * fh ==> i / fw < fh,
{
    vstd::arithmetic::div_mod::lemma_fundamental_div_mod(i, fw);
    vstd::arithmetic::div_mod::lemma_mod_bound(i, fw);
    vstd::arithmetic::div_mod::lemma_div_pos_is_pos(i, fw);
    if i < fw * fh {
        let q = i / fw;
        assert(q < fh) by (nonlinear_arith)
            requires
                fw * q <= i,
                i < fw * fh,
                0 < fw,
        ;
    }
}

/// The frame index of row `y`, column `x`.
pub proof fn lemma_index_of(y: int, x: int, fw: int, fh: int)
    requires
        0 <= y < fh,
        0 <= x < fw,
    ensures
        (y * fw + x) / fw == y,
        (y * fw + x) % fw == x,
        0 <= y * fw + x < fw * fh,
{
    vstd::arithmetic::div_mod::lemma_fundamental_div_mod_converse(y * fw + x, fw, y, x);
    assert(0 <= y * fw + x < fw * fh) by (nonlinear_arith)
        requires
            0 <= y < fh,
            0 <= x < fw,
    ;
}

/// Where a glyph lands: frame pixel (`x`, `y`) is covered by bitmap cell
/// (`y - gtop`, `x - gx`) when that cell exists; if its coverage is
/// non-zero the pixel becomes the text color laid over it with that
/// coverage as opacity, and every other pixel of the frame keeps its value,
/// as do the entries of the buffer past the frame's last row.
pub proof fn lemma_composite_at(
    frame: Seq<u32>,
    fw: int,
    fh: int,
    gx: int,
    gtop: int,
    gw: int,
    gh: int,
    cov: Seq<u8>,
    fg: u32,
    x: int,
    y: int,
)
    requires
        0 <= x < fw,
        0 <= y < fh,
        fw * fh <= frame.len(),
        0 <= gw,
        0 <= gh,
        gw * gh <= cov.len(),
    ensures
        ({
            let out = spec_composite(frame, fw, fh, gx, gtop, gw, gh, cov, fg);
            let i = y * fw + x;
            let row = y - gtop;
            let col = x - gx;
            let inside = 0 <= row < gh && 0 <= col < gw;
            &&& 0 <= i < frame.len()
            &&& out.len() == frame.len()
            &&& inside && cov[row * gw + col] != 0 ==> out[i] == spec_blend(
                frame[i],
                fg,
                cov[row * gw + col] as u32,
            )
            &&& !(inside && cov[row * gw + col] != 0) ==> out[i] == frame[i]
            &&& forall|j: int| fw * fh <= j < frame.len() ==> #[trigger] out[j] == frame[j]
        }),
{
    lemma_index_of(y, x, fw, fh);
    let row = y - gtop;
    let col = x - gx;
    if 0 <= row < gh && 0 <= col < gw {
        assert(row * gw + col < gw * gh) by (nonlinear_arith)
            requires
                0 <= row < gh,
                0 <= col < gw,
        ;
    }
}

/// The value of pixel `i` once the bitmap rows before `r`, and the cells of
/// row `r` before column `c`, have been laid.
pub open spec fn composite_partial(
    old: Seq<u32>,
    fw: int,
    fh: int,
    gx: int,
    gtop: int,
    gw: int,
    gh: int,
    cov: Seq<u8>,
    fg: u32,
    r: int,
    c: int,
    i: int,
) -> u32 {
    let a = glyph_alpha(cov, gw, gh, fw, gx, gtop, i);
    let row = i / fw - gtop;
    let col = i % fw - gx;
    if i < fw * fh && a != 0 && (row < r || (row == r && col < c)) {
        spec_blend(old[i], fg, a as u32)
    } else {
        old[i]
    }
}

/// Lays a glyph coverage bitmap (`gw` x `gh`, row by row) in color `fg` over
/// the `fw` x `fh` frame with its top left corner at (`gx`, `gtop`); cells
/// that fall outside the frame are clipped, cells of coverage 0 are skipped.
pub fn composite_glyph(
    frame: &mut [u32],
    fw: u32,
    fh: u32,
    gx: i64,
    gtop: i64,
    gw: usize,
    gh: usize,
    cov: &[u8],
    fg: u32,
)
    requires
        fw * fh <= old(frame)@.len(),
        gw * gh <= cov@.len(),
        gw <= i64::MAX,
        gh <= i64::MAX,
        gx + gw <= i64::MAX,
        gtop + gh <= i64::MAX,
    ensures
        final(frame)@ == spec_composite(
            old(frame)@,
            fw as int,
            fh as int,
            gx as int,
            gtop as int,
            gw as int,
            gh as int,
            cov@,
            fg,
        ),
{
    let ghost old_frame = frame@;
    let ghost (w, h, x0, y0, cw, ch) = (
        fw as int,
        fh as int,
        gx as int,
        gtop as int,
        gw as int,
        gh as int,
    );
    let cov_len = cov.len();
    let frame_len = frame.len();
    let mut row: usize = 0;
    while row < gh
        invariant
            row <= gh,
            w == fw,
            h == fh,
            x0 == gx,
            y0 == gtop,
            cw == gw,
            ch == gh,
            fw * fh <= old_frame.len(),
            gw * gh <= cov@.len(),
            cov_len == cov@.len(),
            gw <= i64::MAX,
            gh <= i64::MAX,
            gx + gw <= i64::MAX,
            gtop + gh <= i64::MAX,
            frame@.len() == old_frame.len(),
            frame_len == old_frame.len(),
            forall|i: int|
                0 <= i < frame@.len() ==> #[trigger] frame@[i] == composite_partial(
                    old_frame,
                    w,
                    h,
                    x0,
                    y0,
                    cw,
                    ch,
                    cov@,
                    fg,
                    row as int,
                    0,
                    i,
                ),
        decreases gh - row,
    {
        let py: i64 = gtop + row as i64;
        let mut col: usize = 0;
        while col < gw
            invariant
                row < gh,
                col <= gw,
                py == gtop + row,
                w == fw,
                h == fh,
                x0 == gx,
                y0 == gtop,
                cw == gw,
                ch == gh,
                fw * fh <= old_frame.len(),
                gw * gh <= cov@.len(),
                cov_len == cov@.len(),
                gw <= i64::MAX,
                gh <= i64::MAX,
                gx + gw <= i64::MAX,
                gtop + gh <= i64::MAX,
                frame@.len() == old_frame.len(),
                frame_len == old_frame.len(),
                forall|i: int|
                    0 <= i < frame@.len() ==> #[trigger] frame@[i] == composite_partial(
                        old_frame,
                        w,
                        h,
                        x0,
                        y0,
                        cw,
                        ch,
                        cov@,
                        fg,
                        row as int,
                        col as int,
                        i,
                    ),
            decreases gw - col,
        {
            let px: i64 = gx + col as i64;
            let ghost before = frame@;
            proof {
                assert((row + 1) * gw <= gh * gw) by (nonlinear_arith)
                    requires
                        row < gh,
                ;
                assert(row * gw + col < gw * gh) by (nonlinear_arith)
                    requires
                        row < gh,
                        col < gw,
                        (row + 1) * gw <= gh * gw,
                ;
            }
            let a = cov[row * gw + col] as u32;
            if 0 <= py && py < fh as i64 && 0 <= px && px < fw as i64 && a != 0 {
                let ghost i0 = py * w + px;
                proof {
                    lemma_index_of(py as int, px as int, w, h);
                }
                let i = py as usize * fw as usize + px as usize;
                assert(i == i0);
                let v = blend(frame[i], fg, a);
                frame[i] = v;
                proof {
                    assert forall|i: int| 0 <= i < frame@.len() implies #[trigger] frame@[i]
                        == composite_partial(old_frame, w, h, x0, y0, cw, ch, cov@, fg, row as int, col + 1, i) by {
                        lemma_row_col(i, w, h);
                        if i != i0 {
                            assert(before[i] == frame@[i]);
                            if i / w == py && i % w == px {
                                assert(w * (i / w) == py * w) by (nonlinear_arith)
                                    requires
                                        i / w == py,
                                ;
                            }
                        } else {
                            assert(i == i as int);
                            assert(before[i] == old_frame[i]);
                            assert(glyph_alpha(cov@, cw, ch, w, x0, y0, i) == a);
                        }
                    }
                }
            } else {
                proof {
                    assert forall|i: int| 0 <= i < frame@.len() implies #[trigger] frame@[i]
                        == composite_partial(old_frame, w, h, x0, y0, cw, ch, cov@, fg, row as int, col + 1, i) by {
                        assert(before[i] == frame@[i]);
                        if w > 0 {
                            lemma_row_col(i, w, h);
                            if i < w * h && i / w - y0 == row && i % w - x0 == col {
                                assert(i / w == py && i % w == px);
                            }
                        }
                    }
                }
            }
            col += 1;
        }
        proof {
            assert forall|i: int| 0 <= i < frame@.len() implies #[trigger] frame@[i]
                == composite_partial(old_frame, w, h, x0, y0, cw, ch, cov@, fg, row + 1, 0, i) by {
                assert(frame@[i] == composite_partial(old_frame, w, h, x0, y0, cw, ch, cov@, fg, row as int, col as int, i));
                if w > 0 {
                    lemma_row_col(i, w, h);
                }
            }
        }
        row += 1;
    }
    proof {
        assert forall|i: int| 0 <= i < frame@.len() implies #[trigger] frame@[i] == spec_composite(
            old_frame, w, h, x0, y0, cw, ch, cov@, fg)[i] by {
            assert(frame@[i] == composite_partial(old_frame, w, h, x0, y0, cw, ch, cov@, fg, row as int, 0, i));
            if w > 0 {
                lemma_row_col(i, w, h);
            }
        }
        assert(frame@ =~= spec_composite(old_frame, w, h, x0, y0, cw, ch, cov@, fg));
    }
}

} // verus!
