//! Images: farbfeld decoding, other formats through the `image` crate,
//! blending over the background, nearest-neighbour scaling to the usable
//! area, and drawing centered into the frame.
use vstd::prelude::*;

use crate::config::BACKGROUND;
use crate::draw::{blue, green, lemma_channels, lemma_index_of, lemma_mix_bound, lemma_mix_floor, lemma_pack, lemma_row_col, mix, red, rgb};

verus! {

/// The largest rectangle with the aspect ratio of `bw` x `bh` that fits into
/// `uw` x `uh`, in integer arithmetic (the scaled side rounded down); (0, 0)
/// when any side is 0.
pub open spec fn spec_fit_rect(bw: u32, bh: u32, uw: u32, uh: u32) -> (u32, u32) {
    if bw == 0 || bh == 0 || uw == 0 || uh == 0 {
        (0, 0)
    } else if uw as int * bh > uh as int * bw {
        ((bw as int * uh / bh as int) as u32, uh)
    } else {
        (uw, (bh as int * uw / bw as int) as u32)
    }
}

proof fn lemma_floor_div(a: int, b: int)
    requires
        0 <= a,
        0 < b,
    ensures
        0 <= a / b,
        (a / b) * b <= a < (a / b) * b + b,
{
    vstd::arithmetic::div_mod::lemma_fundamental_div_mod(a, b);
    vstd::arithmetic::div_mod::lemma_mod_bound(a, b);
    vstd::arithmetic::div_mod::lemma_div_pos_is_pos(a, b);
    assert(b * (a / b) == (a / b) * b) by (nonlinear_arith);
}

/// What a fit promises for non-empty sides: it stays within the usable
/// area, fills it along one side, and keeps the aspect ratio up to the
/// rounding of the scaled side.
pub proof fn lemma_fit_rect(bw: u32, bh: u32, uw: u32, uh: u32)
    requires
        bw > 0,
        bh > 0,
        uw > 0,
        uh > 0,
    ensures
        ({
            let (w, h) = spec_fit_rect(bw, bh, uw, uh);
            &&& w <= uw
            &&& h <= uh
            &&& w == uw || h == uh
            &&& w as int * bh <= h as int * bw + bw
            &&& h as int * bw <= w as int * bh + bh
        }),
{
    let (bw, bh, uw, uh) = (bw as int, bh as int, uw as int, uh as int);
    if uw * bh > uh * bw {
        let w = bw * uh / bh;
        lemma_floor_div(bw * uh, bh);
        assert(w < uw) by (nonlinear_arith)
            requires
                w * bh <= bw * uh,
                uh * bw < uw * bh,
                bh > 0,
        ;
        assert(uh * bw == bw * uh) by (nonlinear_arith);
    } else {
        let h = bh * uw / bw;
        lemma_floor_div(bh * uw, bw);
        assert(h <= uh) by (nonlinear_arith)
            requires
                h * bw <= bh * uw,
                uw * bh <= uh * bw,
                bw > 0,
        ;
        assert(uw * bh == bh * uw) by (nonlinear_arith);
    }
}

/// When the usable area has the image's aspect ratio, the image fills it
/// exactly (in particular, an image that already fits it exactly is kept).
pub proof fn lemma_fit_rect_same_aspect(bw: u32, bh: u32, uw: u32, uh: u32)
    requires
        bw > 0,
        bh > 0,
        uw > 0,
        uh > 0,
        uw as int * bh == uh as int * bw,
    ensures
        spec_fit_rect(bw, bh, uw, uh) == (uw, uh),
{
    assert(bh as int * uw == uh as int * bw) by (nonlinear_arith)
        requires
            uw as int * bh == uh as int * bw,
    ;
    vstd::arithmetic::div_mod::lemma_div_multiples_vanish(uh as int, bw as int);
    assert(uh as int * bw == bw as int * uh) by (nonlinear_arith);
}

proof fn lemma_mul_u32(a: u32, b: u32)
    ensures
        0 <= a as int * b <= u64::MAX,
{
    assert(0 <= a as int * b <= 0xFFFF_FFFFint * 0xFFFF_FFFFint) by (nonlinear_arith)
        requires
            a <= 0xFFFF_FFFFint,
            b <= 0xFFFF_FFFFint,
    ;
}

/// A fit never exceeds the usable area.
pub proof fn lemma_fit_within(bw: u32, bh: u32, uw: u32, uh: u32)
    ensures
        spec_fit_rect(bw, bh, uw, uh).0 <= uw,
        spec_fit_rect(bw, bh, uw, uh).1 <= uh,
{
    if bw > 0 && bh > 0 && uw > 0 && uh > 0 {
        lemma_fit_rect(bw, bh, uw, uh);
    }
}

/// The largest `w` x `h` rectangle with the aspect ratio of `bw` x `bh` that
/// fits into `uw` x `uh` (see `spec_fit_rect` and `lemma_fit_rect`).
pub fn fit_rect(bw: u32, bh: u32, uw: u32, uh: u32) -> (r: (u32, u32))
    ensures
        r == spec_fit_rect(bw, bh, uw, uh),
        bw == 0 || bh == 0 || uw == 0 || uh == 0 ==> r == (0u32, 0u32),
        r.0 <= uw,
        r.1 <= uh,
{
    if bw == 0 || bh == 0 || uw == 0 || uh == 0 {
        return (0, 0);
    }
    proof {
        lemma_fit_rect(bw, bh, uw, uh);
        lemma_mul_u32(uw, bh);
        lemma_mul_u32(uh, bw);
        lemma_mul_u32(bw, uh);
        lemma_mul_u32(bh, uw);
    }
    if uw as u64 * bh as u64 > uh as u64 * bw as u64 {
        proof {
            lemma_floor_div(bw * uh, bh as int);
        }
        ((bw as u64 * uh as u64 / bh as u64) as u32, uh)
    } else {
        proof {
            lemma_floor_div(bh * uw, bw as int);
        }
        (uw, (bh as u64 * uw as u64 / bw as u64) as u32)
    }
}


/// The eight bytes "farbfeld" that open a farbfeld file.
pub open spec fn farbfeld_magic() -> Seq<u8> {
    seq![102u8, 97u8, 114u8, 98u8, 102u8, 101u8, 108u8, 100u8]
}

/// The 32-bit big-endian number at `k`.
pub open spec fn be32(d: Seq<u8>, k: int) -> int {
    d[k] * 16777216 + d[k + 1] * 65536 + d[k + 2] * 256 + d[k + 3]
}

/// A farbfeld header: the magic and the two 32-bit dimensions.
pub open spec fn has_farbfeld_header(d: Seq<u8>) -> bool {
    d.len() >= 16 && d.take(8) == farbfeld_magic()
}

pub open spec fn farbfeld_width(d: Seq<u8>) -> u32 {
    be32(d, 8) as u32
}

pub open spec fn farbfeld_height(d: Seq<u8>) -> u32 {
    be32(d, 12) as u32
}

/// Whether the pixel data (8 bytes per pixel) is all there.
pub open spec fn farbfeld_complete(d: Seq<u8>) -> bool {
    d.len() >= 16 + 8 * farbfeld_width(d) * farbfeld_height(d)
}

/// The 8-bit RGBA samples: each 16-bit big-endian sample divided by 257.
pub open spec fn farbfeld_rgba(d: Seq<u8>) -> Seq<u8> {
    Seq::new(
        (4 * farbfeld_width(d) * farbfeld_height(d)) as nat,
        |k: int| ((d[16 + 2 * k] * 256 + d[17 + 2 * k]) / 257) as u8,
    )
}

fn read_be32(data: &[u8], k: usize) -> (v: u32)
    requires
        k + 4 <= data@.len(),
    ensures
        v == be32(data@, k as int),
{
    data[k] as u32 * 16777216 + data[k + 1] as u32 * 65536 + data[k + 2] as u32 * 256
        + data[k + 3] as u32
}

/// Decodes farbfeld: the magic "farbfeld", width and height as 32-bit
/// big-endian numbers, then rows of 16-bit big-endian RGBA. Returns the
/// width, the height and the samples scaled to 8 bits.
pub fn decode_farbfeld(data: &[u8]) -> (r: Result<(u32, u32, Vec<u8>), String>)
    ensures
        match r {
            Ok((w, h, rgba)) => {
                &&& has_farbfeld_header(data@)
                &&& farbfeld_complete(data@)
                &&& w == farbfeld_width(data@)
                &&& h == farbfeld_height(data@)
                &&& rgba@ == farbfeld_rgba(data@)
            },
            Err(e) => if !has_farbfeld_header(data@) {
                e@ == "no valid farbfeld header"@
            } else {
                !farbfeld_complete(data@) && e@ == "truncated farbfeld data"@
            },
        },
{
    if data.len() < 16 || !starts_with_farbfeld(data) {
        return Err("no valid farbfeld header".to_owned());
    }
    let w = read_be32(data, 8);
    let h = read_be32(data, 12);
    proof {
        lemma_mul_u32(w, h);
    }
    let npx: u64 = w as u64 * h as u64;
    let need: Option<u64> = match npx.checked_mul(8) {
        Some(n) => n.checked_add(16),
        None => None,
    };
    let complete = match need {
        Some(n) => n <= data.len() as u64,
        None => false,
    };
    let ghost wh = w as int * h as int;
    proof {
        assert(8 * w * h == 8 * wh && 4 * w * h == 4 * wh) by (nonlinear_arith)
            requires
                wh == w as int * h as int,
        ;
    }
    if !complete {
        proof {
            assert(data@.len() <= u64::MAX);
        }
        return Err("truncated farbfeld data".to_owned());
    }
    let count: usize = (npx * 4) as usize;
    proof {
        assert(data@.len() <= usize::MAX);
        assert(count == 4 * wh);
    }
    let mut rgba: Vec<u8> = Vec::new();
    let mut k: usize = 0;
    while k < count
        invariant
            k <= count,
            count == 4 * w * h,
            16 + 2 * count <= data@.len(),
            data@.len() <= usize::MAX,
            w == farbfeld_width(data@),
            h == farbfeld_height(data@),
            rgba@ == farbfeld_rgba(data@).take(k as int),
        decreases count - k,
    {
        let hi = data[16 + 2 * k] as u16;
        let lo = data[17 + 2 * k] as u16;
        let v = ((hi * 256 + lo) / 257) as u8;
        rgba.push(v);
        k += 1;
        proof {
            assert(rgba@ =~= farbfeld_rgba(data@).take(k as int));
        }
    }
    proof {
        assert(rgba@ =~= farbfeld_rgba(data@));
    }
    Ok((w, h, rgba))
}

/// What farbfeld decoding yields from a file with its header: the sides are
/// the 32-bit big-endian numbers at bytes 8 and 12, there are four samples
/// per pixel, and sample `k` is the 16-bit big-endian sample at byte
/// `16 + 2k` divided by 257 and rounded down, which maps the 16-bit range
/// onto 0 to 255 (0xFFFF onto 255).
pub proof fn lemma_farbfeld_samples(d: Seq<u8>, k: int)
    requires
        has_farbfeld_header(d),
    ensures
        ({
            let w = d[8] * 16777216 + d[9] * 65536 + d[10] * 256 + d[11];
            let h = d[12] * 16777216 + d[13] * 65536 + d[14] * 256 + d[15];
            &&& farbfeld_width(d) == w
            &&& farbfeld_height(d) == h
            &&& farbfeld_rgba(d).len() == 4 * w * h
            &&& 0 <= k < 4 * w * h ==> {
                let s = d[16 + 2 * k] * 256 + d[17 + 2 * k];
                let out = farbfeld_rgba(d)[k] as int;
                out * 257 <= s < out * 257 + 257
            }
        }),
{
    let s = d[16 + 2 * k] * 256 + d[17 + 2 * k];
    lemma_floor_div(s, 257);
}

/// An image slide's picture: `w` x `h` pixels as RGB bytes, row by row, any
/// transparency already blended over the background. A scaled copy for the
/// last drawn size is kept.
pub struct Img {
    w: u32,
    h: u32,
    rgb: Vec<u8>,
    scaled: Option<Scaled>,
}

/// The picture scaled to `w` x `h`, as 0xRRGGBB pixels row by row.
struct Scaled {
    w: u32,
    h: u32,
    pix: Vec<u32>,
}

/// The picture of an image: its size and its RGB bytes.
pub struct ImgView {
    pub w: u32,
    pub h: u32,
    pub rgb: Seq<u8>,
}

impl View for Img {
    type V = ImgView;

    closed spec fn view(&self) -> ImgView {
        ImgView { w: self.w, h: self.h, rgb: self.rgb@ }
    }
}

/// The 0xRRGGBB color of the RGB bytes at `k`.
pub open spec fn rgb_at(bytes: Seq<u8>, k: int) -> u32 {
    rgb(bytes[k] as int, bytes[k + 1] as int, bytes[k + 2] as int) as u32
}

/// Pixel (`x`, `y`) of the picture scaled to `tw` x `th` by nearest
/// neighbour: source pixel (`x * w / tw`, `y * h / th`).
pub open spec fn scaled_pixel(v: ImgView, tw: u32, th: u32, x: int, y: int) -> u32 {
    let sx = x * v.w / tw as int;
    let sy = y * v.h / th as int;
    rgb_at(v.rgb, (sy * v.w + sx) * 3)
}

/// The picture scaled to `tw` x `th` by nearest neighbour, row by row.
pub open spec fn spec_scale(v: ImgView, tw: u32, th: u32) -> Seq<u32> {
    Seq::new((tw * th) as nat, |i: int| scaled_pixel(v, tw, th, i % tw as int, i / tw as int))
}

/// `pix` (`tw` x `th`, row by row) copied into the `fw`-wide frame with its
/// top left corner at (`x0`, `y0`).
pub open spec fn spec_blit(
    frame: Seq<u32>,
    fw: int,
    x0: int,
    y0: int,
    tw: int,
    th: int,
    pix: Seq<u32>,
) -> Seq<u32> {
    Seq::new(
        frame.len(),
        |i: int|
            {
                let y = i / fw - y0;
                let x = i % fw - x0;
                if 0 <= y < th && 0 <= x < tw {
                    pix[y * tw + x]
                } else {
                    frame[i]
                }
            },
    )
}

/// The frame after drawing the picture: scaled to fit `uw` x `uh` and
/// centered in the `fw` x `fh` frame; nothing is drawn when the fit is empty.
pub open spec fn spec_draw(
    v: ImgView,
    frame: Seq<u32>,
    fw: u32,
    fh: u32,
    uw: u32,
    uh: u32,
) -> Seq<u32> {
    let (tw, th) = spec_fit_rect(v.w, v.h, uw, uh);
    if tw == 0 || th == 0 {
        frame
    } else {
        spec_blit(
            frame,
            fw as int,
            (fw - tw) / 2,
            (fh - th) / 2,
            tw as int,
            th as int,
            spec_scale(v, tw, th),
        )
    }
}

/// The value of frame pixel `i` once the rows of `pix` before `r`, and the
/// pixels of row `r` before column `c`, have been copied.
pub open spec fn blit_partial(
    frame: Seq<u32>,
    fw: int,
    x0: int,
    y0: int,
    tw: int,
    th: int,
    pix: Seq<u32>,
    r: int,
    c: int,
    i: int,
) -> u32 {
    let y = i / fw - y0;
    let x = i % fw - x0;
    if 0 <= y < th && 0 <= x < tw && (y < r || (y == r && x < c)) {
        pix[y * tw + x]
    } else {
        frame[i]
    }
}

/// Copies `pix` (`tw` x `th`) into the `fw`-wide frame at (`x0`, `y0`).
fn blit(frame: &mut [u32], fw: usize, fh: usize, x0: usize, y0: usize, tw: usize, th: usize, pix: &[u32])
    requires
        x0 + tw <= fw,
        y0 + th <= fh,
        fw * fh <= old(frame)@.len(),
        pix@.len() == tw * th,
    ensures
        final(frame)@ == spec_blit(old(frame)@, fw as int, x0 as int, y0 as int, tw as int, th as int, pix@),
{
    let ghost old_frame = frame@;
    let frame_len = frame.len();
    let pix_len = pix.len();
    let mut y: usize = 0;
    while y < th
        invariant
            y <= th,
            x0 + tw <= fw,
            y0 + th <= fh,
            fw * fh <= old_frame.len(),
            frame_len == old_frame.len(),
            frame@.len() == old_frame.len(),
            pix@.len() == tw * th,
            pix_len == pix@.len(),
            forall|i: int|
                0 <= i < frame@.len() ==> #[trigger] frame@[i] == blit_partial(
                    old_frame,
                    fw as int,
                    x0 as int,
                    y0 as int,
                    tw as int,
                    th as int,
                    pix@,
                    y as int,
                    0,
                    i,
                ),
        decreases th - y,
    {
        let mut x: usize = 0;
        while x < tw
            invariant
                y < th,
                x <= tw,
                x0 + tw <= fw,
                y0 + th <= fh,
                fw * fh <= old_frame.len(),
                frame_len == old_frame.len(),
                frame@.len() == old_frame.len(),
                pix@.len() == tw * th,
                pix_len == pix@.len(),
                forall|i: int|
                    0 <= i < frame@.len() ==> #[trigger] frame@[i] == blit_partial(
                        old_frame,
                        fw as int,
                        x0 as int,
                        y0 as int,
                        tw as int,
                        th as int,
                        pix@,
                        y as int,
                        x as int,
                        i,
                    ),
            decreases tw - x,
        {
            let ghost before = frame@;
            let ghost i0 = (y0 + y) * fw + (x0 + x);
            proof {
                lemma_index_of((y0 + y) as int, (x0 + x) as int, fw as int, fh as int);
                assert(y * tw + x < tw * th) by (nonlinear_arith)
                    requires
                        y < th,
                        x < tw,
                ;
            }
            let i = (y0 + y) * fw + (x0 + x);
            frame[i] = pix[y * tw + x];
            proof {
                assert forall|j: int| 0 <= j < frame@.len() implies #[trigger] frame@[j]
                    == blit_partial(old_frame, fw as int, x0 as int, y0 as int, tw as int, th as int, pix@, y as int, x + 1, j) by {
                    lemma_row_col(j, fw as int, fh as int);
                    if j != i0 {
                        assert(before[j] == frame@[j]);
                        if j / (fw as int) == y0 + y && j % (fw as int) == x0 + x {
                            assert(fw * (j / (fw as int)) == (y0 + y) * fw) by (nonlinear_arith)
                                requires
                                    j / (fw as int) == y0 + y,
                            ;
                        }
                    }
                }
            }
            x += 1;
        }
        proof {
            assert forall|j: int| 0 <= j < frame@.len() implies #[trigger] frame@[j]
                == blit_partial(old_frame, fw as int, x0 as int, y0 as int, tw as int, th as int, pix@, y + 1, 0, j) by {
                assert(frame@[j] == blit_partial(old_frame, fw as int, x0 as int, y0 as int, tw as int, th as int, pix@, y as int, x as int, j));
                if fw > 0 {
                    lemma_row_col(j, fw as int, fh as int);
                }
            }
        }
        y += 1;
    }
    proof {
        assert forall|j: int| 0 <= j < frame@.len() implies #[trigger] frame@[j]
            == spec_blit(old_frame, fw as int, x0 as int, y0 as int, tw as int, th as int, pix@)[j] by {
            assert(frame@[j] == blit_partial(old_frame, fw as int, x0 as int, y0 as int, tw as int, th as int, pix@, y as int, 0, j));
            if fw > 0 {
                lemma_row_col(j, fw as int, fh as int);
            }
        }
        assert(frame@ =~= spec_blit(old_frame, fw as int, x0 as int, y0 as int, tw as int, th as int, pix@));
    }
}

/// What `image::load_from_memory` followed by `to_rgba8` makes of a file's
/// bytes: its width, height and 8-bit RGBA samples, or, when the crate
/// cannot decode them, the text of its `ImageError`.
pub uninterp spec fn image_decode(data: Seq<u8>) -> Result<(u32, u32, Seq<u8>), Seq<char>>;

/// Calls `image::load_from_memory` (format guessed from the bytes) and
/// converts the result with `DynamicImage::to_rgba8`, or the error with its
/// `Display` text. The result is named `image_decode`; besides, an
/// `RgbaImage` buffer always holds at least 4 * width * height samples
/// (`ImageBuffer` checks this when built).
#[verifier::external_body]
fn decode_image(data: &[u8]) -> (r: Result<(u32, u32, Vec<u8>), String>)
    ensures
        match r {
            Ok((w, h, px)) => image_decode(data@) == Ok::<(u32, u32, Seq<u8>), Seq<char>>((w, h, px@))
                && px@.len() >= 4 * w * h,
            Err(m) => image_decode(data@) == Err::<(u32, u32, Seq<u8>), Seq<char>>(m@),
        },
{
    match image::load_from_memory(data) {
        Ok(im) => {
            let im = im.to_rgba8();
            Ok((im.width(), im.height(), im.into_raw()))
        },
        Err(e) => Err(e.to_string()),
    }
}

/// Channel `c` (0 red, 1 green, 2 blue) of a 0xRRGGBB color.
pub open spec fn channel(color: u32, c: int) -> int {
    if c == 0 {
        red(color)
    } else if c == 1 {
        green(color)
    } else {
        blue(color)
    }
}

/// RGBA samples laid over the window background: each complete RGBA
/// quadruple becomes an RGB triple, each channel mixed with the background's
/// by the pixel's alpha.
pub open spec fn over_background(rgba: Seq<u8>) -> Seq<u8> {
    Seq::new(
        ((rgba.len() / 4) * 3) as nat,
        |i: int|
            {
                let k = i / 3;
                let c = i % 3;
                mix(rgba[4 * k + c] as int, channel(BACKGROUND, c), rgba[4 * k + 3] as int) as u8
            },
    )
}

/// The red, green and blue channels of a 0xRRGGBB color.
pub fn channels(c: u32) -> (r: (u32, u32, u32))
    ensures
        r == (red(c) as u32, green(c) as u32, blue(c) as u32),
        r.0 < 256 && r.1 < 256 && r.2 < 256,
{
    proof {
        lemma_channels(c);
    }
    ((c >> 16) & 0xFF, (c >> 8) & 0xFF, c & 0xFF)
}

fn blend_over_background(rgba: &Vec<u8>) -> (out: Vec<u8>)
    ensures
        out@ == over_background(rgba@),
{
    let (br, bg, bb) = channels(BACKGROUND);
    let n = rgba.len();
    let quads = n / 4;
    proof {
        lemma_floor_div(n as int, 4);
    }
    let mut out: Vec<u8> = Vec::new();
    let mut q: usize = 0;
    while q < quads
        invariant
            q <= quads,
            quads == rgba@.len() / 4,
            n == rgba@.len(),
            4 * quads <= n,
            (br, bg, bb) == (red(BACKGROUND) as u32, green(BACKGROUND) as u32, blue(BACKGROUND) as u32),
            br < 256 && bg < 256 && bb < 256,
            out@ == over_background(rgba@).take(3 * q),
        decreases quads - q,
    {
        let a = rgba[4 * q + 3] as u32;
        let na = 255 - a;
        let r = rgba[4 * q] as u32;
        let g = rgba[4 * q + 1] as u32;
        let b = rgba[4 * q + 2] as u32;
        proof {
            lemma_mix_bound(r as int, br as int, a as int);
            lemma_mix_bound(g as int, bg as int, a as int);
            lemma_mix_bound(b as int, bb as int, a as int);
        }
        out.push(((r * a + br * na) / 255) as u8);
        out.push(((g * a + bg * na) / 255) as u8);
        out.push(((b * a + bb * na) / 255) as u8);
        proof {
            vstd::arithmetic::div_mod::lemma_fundamental_div_mod_converse(3 * q, 3, q as int, 0);
            vstd::arithmetic::div_mod::lemma_fundamental_div_mod_converse(3 * q + 1, 3, q as int, 1);
            vstd::arithmetic::div_mod::lemma_fundamental_div_mod_converse(3 * q + 2, 3, q as int, 2);
            assert(out@ =~= over_background(rgba@).take(3 * q + 3));
        }
        q += 1;
    }
    proof {
        assert(over_background(rgba@).take(3 * quads) =~= over_background(rgba@));
    }
    out
}

/// Whether a file's bytes open with "farbfeld".
pub open spec fn is_farbfeld(d: Seq<u8>) -> bool {
    d.len() >= 8 && d.take(8) == farbfeld_magic()
}

/// The decoded RGBA picture of an image file: farbfeld when the bytes open
/// with "farbfeld", any other format through the `image` crate.
pub open spec fn spec_decoded(d: Seq<u8>) -> Option<(u32, u32, Seq<u8>)> {
    if is_farbfeld(d) {
        if has_farbfeld_header(d) && farbfeld_complete(d) {
            Some((farbfeld_width(d), farbfeld_height(d), farbfeld_rgba(d)))
        } else {
            None
        }
    } else {
        match image_decode(d) {
            Ok(t) => Some(t),
            Err(_) => None,
        }
    }
}

/// The message of a farbfeld decoding error.
pub open spec fn farbfeld_error(d: Seq<u8>) -> Seq<char> {
    if !has_farbfeld_header(d) {
        "no valid farbfeld header"@
    } else {
        "truncated farbfeld data"@
    }
}

/// The message when the `image` crate cannot decode the file `path`: the
/// crate's own error text after the file's name.
pub open spec fn decode_error(path: Seq<char>, d: Seq<u8>) -> Seq<char> {
    "rent: unable to decode '"@ + path + "': "@ + match image_decode(d) {
        Ok(_) => Seq::empty(),
        Err(m) => m,
    }
}

fn starts_with_farbfeld(data: &[u8]) -> (b: bool)
    ensures
        b == is_farbfeld(data@),
{
    let b = data.len() >= 8 && data[0] == 102 && data[1] == 97 && data[2] == 114 && data[3] == 98
        && data[4] == 102 && data[5] == 101 && data[6] == 108 && data[7] == 100;
    proof {
        if b {
            assert(data@.take(8) =~= farbfeld_magic());
        } else if data@.len() >= 8 && data@.take(8) == farbfeld_magic() {
            assert forall|i: int| 0 <= i < 8 implies data@[i] == farbfeld_magic()[i] by {
                assert(data@.take(8)[i] == data@[i]);
            }
        }
    }
    b
}

impl Img {
    /// Decodes the bytes of the image file `path` (farbfeld natively, other
    /// formats through the `image` crate) and blends any transparency over
    /// the background. `path` only names the file in error messages.
    pub fn load(path: &str, data: &[u8]) -> (r: Result<Img, String>)
        ensures
            match r {
                Ok(img) => spec_decoded(data@) matches Some((w, h, rgba)) && img@ == (ImgView {
                    w,
                    h,
                    rgb: over_background(rgba),
                }) && img.cached_size() is None,
                Err(e) => spec_decoded(data@) is None && if is_farbfeld(data@) {
                    e@ == "rent: '"@ + path@ + "': "@ + farbfeld_error(data@)
                } else {
                    e@ == decode_error(path@, data@)
                },
            },
    {
        let (w, h, rgba) = if starts_with_farbfeld(data) {
            match decode_farbfeld(data) {
                Ok(t) => t,
                Err(e) => {
                    let mut m = "rent: '".to_owned();
                    m.append(path);
                    m.append("': ");
                    m.append(e.as_str());
                    return Err(m);
                },
            }
        } else {
            match decode_image(data) {
                Ok(t) => t,
                Err(e) => {
                    let mut m = "rent: unable to decode '".to_owned();
                    m.append(path);
                    m.append("': ");
                    m.append(e.as_str());
                    return Err(m);
                },
            }
        };
        let rgb = blend_over_background(&rgba);
        proof {
            assert(4 * w * h <= rgba@.len());
            assert(w as int * h as int * 3 <= (rgba@.len() / 4) * 3) by (nonlinear_arith)
                requires
                    4 * w * h <= rgba@.len(),
            ;
        }
        Ok(Img { w, h, rgb, scaled: None })
    }

    #[verifier::type_invariant]
    closed spec fn wf(self) -> bool {
        &&& self.w as int * self.h as int * 3 <= self.rgb@.len()
        &&& match self.scaled {
            Some(s) => s.w > 0 && s.h > 0 && s.pix@ == spec_scale(self@, s.w, s.h),
            None => true,
        }
    }

    /// The size of the kept scaled copy, if any.
    pub closed spec fn cached_size(&self) -> Option<(u32, u32)> {
        match self.scaled {
            Some(s) => Some((s.w, s.h)),
            None => None,
        }
    }

    /// Drops the kept scaled copy; the picture is unchanged.
    pub fn invalidate(&mut self)
        ensures
            final(self)@ == old(self)@,
            final(self).cached_size() is None,
    {
        proof {
            use_type_invariant(&*self);
        }
        self.scaled = None;
    }

    /// Scales the picture to fit `uw` x `uh` (keeping a scaled copy for the
    /// next time) and copies it, centered, into the `fw` x `fh` frame.
    pub fn draw(&mut self, frame: &mut [u32], fw: u32, fh: u32, uw: u32, uh: u32)
        requires
            ({
                let (tw, th) = spec_fit_rect(old(self)@.w, old(self)@.h, uw, uh);
                tw > 0 && th > 0 ==> tw <= fw && th <= fh && fw as int * fh <= old(frame)@.len()
            }),
        ensures
            final(self)@ == old(self)@,
            final(frame)@ == spec_draw(old(self)@, old(frame)@, fw, fh, uw, uh),
            ({
                let (tw, th) = spec_fit_rect(old(self)@.w, old(self)@.h, uw, uh);
                if tw > 0 && th > 0 {
                    final(self).cached_size() == Some((tw, th))
                } else {
                    final(self).cached_size() == old(self).cached_size()
                }
            }),
    {
        proof {
            use_type_invariant(&*self);
        }
        let frame_len = frame.len();
        let (tw, th) = fit_rect(self.w, self.h, uw, uh);
        if tw == 0 || th == 0 {
            return;
        }
        let stale = match &self.scaled {
            Some(s) => s.w != tw || s.h != th,
            None => true,
        };
        if stale {
            proof {
                assert(tw as int * th <= fw as int * fh) by (nonlinear_arith)
                    requires
                        tw <= fw,
                        th <= fh,
                ;
                assert(frame@.len() <= usize::MAX);
            }
            let s = self.scale(tw, th);
            self.scaled = Some(s);
        }
        proof {
            use_type_invariant(&*self);
            assert(frame@.len() <= usize::MAX);
            assert(fw as int * fh <= usize::MAX);
        }
        let pix: &Vec<u32> = match &self.scaled {
            Some(s) => &s.pix,
            None => {
                return;
            },
        };
        let x0 = ((fw - tw) / 2) as usize;
        let y0 = ((fh - th) / 2) as usize;
        blit(frame, fw as usize, fh as usize, x0, y0, tw as usize, th as usize, pix.as_slice());
    }

    /// Nearest-neighbour scaling to `tw` x `th`.
    fn scale(&self, tw: u32, th: u32) -> (s: Scaled)
        requires
            self@.w > 0,
            self@.h > 0,
            tw > 0,
            th > 0,
            tw as int * th <= usize::MAX,
        ensures
            s.w == tw,
            s.h == th,
            s.pix@ == spec_scale(self@, tw, th),
    {
        proof {
            use_type_invariant(self);
        }
        let ghost v = self@;
        let rgb_len = self.rgb.len();
        let mut pix: Vec<u32> = Vec::new();
        let mut y: u32 = 0;
        while y < th
            invariant
                y <= th,
                v == self@,
                v.w as int * v.h as int * 3 <= v.rgb.len(),
                rgb_len == v.rgb.len(),
                v.w > 0,
                v.h > 0,
                tw > 0,
                th > 0,
                pix@ == spec_scale(v, tw, th).take(y * tw),
                tw as int * th <= usize::MAX,
            decreases th - y,
        {
            proof {
                lemma_mul_u32(y, self.h);
                assert(y * self.h < th * self.h) by (nonlinear_arith)
                    requires
                        y < th,
                        self.h > 0,
                ;
                vstd::arithmetic::div_mod::lemma_multiply_divide_lt(y * self.h, th as int, self.h as int);
            }
            let sy = (y as u64 * self.h as u64 / th as u64) as usize;
            let mut x: u32 = 0;
            while x < tw
                invariant
                    y < th,
                    x <= tw,
                    v == self@,
                    v.w as int * v.h as int * 3 <= v.rgb.len(),
                    rgb_len == v.rgb.len(),
                    v.w > 0,
                    v.h > 0,
                    tw > 0,
                    th > 0,
                    sy == y * v.h / th as int,
                    sy < v.h,
                    pix@ == spec_scale(v, tw, th).take(y * tw + x),
                    tw as int * th <= usize::MAX,
                decreases tw - x,
            {
                proof {
                    lemma_mul_u32(x, self.w);
                    assert(x * self.w < tw * self.w) by (nonlinear_arith)
                        requires
                            x < tw,
                            self.w > 0,
                    ;
                    vstd::arithmetic::div_mod::lemma_multiply_divide_lt(x * self.w, tw as int, self.w as int);
                }
                let sx = (x as u64 * self.w as u64 / tw as u64) as usize;
                proof {
                    assert((sy * v.w + sx) * 3 + 2 < v.w as int * v.h as int * 3) by (nonlinear_arith)
                        requires
                            sy < v.h,
                            sx < v.w,
                    ;
                }
                let k = (sy * self.w as usize + sx) * 3;
                let r = self.rgb[k] as u32;
                let g = self.rgb[k + 1] as u32;
                let b = self.rgb[k + 2] as u32;
                proof {
                    lemma_pack(r, g, b);
                }
                let p = (r << 16) | (g << 8) | b;
                pix.push(p);
                proof {
                    lemma_index_of(y as int, x as int, tw as int, th as int);
                    assert(y * tw + x < tw * th) by (nonlinear_arith)
                        requires
                            y < th,
                            x < tw,
                    ;
                    assert(pix@ =~= spec_scale(v, tw, th).take(y * tw + x + 1));
                }
                x += 1;
            }
            proof {
                assert((y + 1) * tw == y * tw + tw) by (nonlinear_arith);
            }
            y += 1;
        }
        proof {
            assert(spec_scale(v, tw, th).take(th * tw) =~= spec_scale(v, tw, th)) by {
                assert(th * tw == tw * th) by (nonlinear_arith);
            }
        }
        Scaled { w: tw, h: th, pix }
    }
}


/// Drawing is idempotent: drawing the same picture a second time (from the
/// kept scaled copy or after it was dropped) leaves the frame as it was.
pub proof fn lemma_draw_idempotent(v: ImgView, frame: Seq<u32>, fw: u32, fh: u32, uw: u32, uh: u32)
    ensures
        spec_draw(v, spec_draw(v, frame, fw, fh, uw, uh), fw, fh, uw, uh) == spec_draw(
            v,
            frame,
            fw,
            fh,
            uw,
            uh,
        ),
{
    let once = spec_draw(v, frame, fw, fh, uw, uh);
    assert(spec_draw(v, once, fw, fh, uw, uh) =~= once);
}

/// Transparency: a fully opaque pixel keeps its color, a fully transparent
/// one shows the background color.
pub proof fn lemma_over_background_extremes(rgba: Seq<u8>, k: int, c: int)
    requires
        0 <= k < rgba.len() / 4,
        0 <= c < 3,
    ensures
        rgba[4 * k + 3] == 255 ==> over_background(rgba)[3 * k + c] == rgba[4 * k + c],
        rgba[4 * k + 3] == 0 ==> over_background(rgba)[3 * k + c] == channel(BACKGROUND, c),
{
    vstd::arithmetic::div_mod::lemma_fundamental_div_mod_converse(3 * k + c, 3, k, c);
    lemma_floor_div(rgba.len() as int, 4);
    assert(0 <= channel(BACKGROUND, c) < 256) by {
        lemma_channels(BACKGROUND);
    }
    lemma_mix_bound(rgba[4 * k + c] as int, channel(BACKGROUND, c), rgba[4 * k + 3] as int);
}

/// Transparency at every alpha, not only the two ends: channel `c` (0 red,
/// 1 green, 2 blue) of RGBA pixel `k` laid over the window background is
/// `(px * alpha + bg * (255 - alpha)) / 255` rounded down, where `px` is the
/// pixel's own channel and `bg` the background's, read out of its 0xRRGGBB
/// word.
pub proof fn lemma_over_background_mix(rgba: Seq<u8>, k: int, c: int)
    requires
        0 <= k < rgba.len() / 4,
        0 <= c < 3,
    ensures
        ({
            let out = over_background(rgba)[3 * k + c] as int;
            let alpha = rgba[4 * k + 3] as int;
            let px = rgba[4 * k + c] as int;
            let shift: int = if c == 0 {
                65536
            } else if c == 1 {
                256
            } else {
                1
            };
            let bg = (BACKGROUND as int / shift) % 256;
            &&& 3 * k + c < over_background(rgba).len()
            &&& out * 255 <= px * alpha + bg * (255 - alpha) < out * 255 + 255
        }),
{
    vstd::arithmetic::div_mod::lemma_fundamental_div_mod_converse(3 * k + c, 3, k, c);
    lemma_floor_div(rgba.len() as int, 4);
    assert(0 <= channel(BACKGROUND, c) < 256) by {
        lemma_channels(BACKGROUND);
    }
    lemma_mix_bound(rgba[4 * k + c] as int, channel(BACKGROUND, c), rgba[4 * k + 3] as int);
    lemma_mix_floor(rgba[4 * k + c] as int, channel(BACKGROUND, c), rgba[4 * k + 3] as int);
}

/// Nearest-neighbour scaling: pixel (`x`, `y`) of the picture scaled to
/// `tw` x `th` is source pixel (`x * w / tw`, `y * h / th`), whose RGB bytes
/// always lie inside the picture.
pub proof fn lemma_scale_pixel(v: ImgView, tw: u32, th: u32, x: int, y: int)
    requires
        v.w > 0,
        v.h > 0,
        v.w as int * v.h as int * 3 <= v.rgb.len(),
        0 <= x < tw,
        0 <= y < th,
    ensures
        ({
            let k = (y * v.h / th as int) * v.w + x * v.w / tw as int;
            &&& spec_scale(v, tw, th).len() == tw * th
            &&& spec_scale(v, tw, th)[y * tw + x] == rgb_at(v.rgb, 3 * k)
            &&& 0 <= 3 * k
            &&& 3 * k + 2 < v.rgb.len()
        }),
{
    lemma_index_of(y, x, tw as int, th as int);
    let sx = x * v.w / tw as int;
    let sy = y * v.h / th as int;
    assert(x * v.w < tw * v.w) by (nonlinear_arith)
        requires
            x < tw,
            v.w > 0,
    ;
    assert(y * v.h < th * v.h) by (nonlinear_arith)
        requires
            y < th,
            v.h > 0,
    ;
    assert(0 <= x * v.w && 0 <= y * v.h) by (nonlinear_arith)
        requires
            0 <= x,
            0 <= y,
    ;
    vstd::arithmetic::div_mod::lemma_multiply_divide_lt(x * v.w, tw as int, v.w as int);
    vstd::arithmetic::div_mod::lemma_multiply_divide_lt(y * v.h, th as int, v.h as int);
    vstd::arithmetic::div_mod::lemma_div_pos_is_pos(x * v.w, tw as int);
    vstd::arithmetic::div_mod::lemma_div_pos_is_pos(y * v.h, th as int);
    assert(0 <= (sy * v.w + sx) * 3 && (sy * v.w + sx) * 3 + 2 < v.w as int * v.h as int * 3) by (nonlinear_arith)
        requires
            0 <= sy < v.h,
            0 <= sx < v.w,
    ;
    assert(3 * (sy * v.w + sx) == (sy * v.w + sx) * 3);
}

/// Where the picture goes: scaled to its fit (`tw` x `th`), it is centered
/// in the frame, the margins before and after it on each axis differing by
/// at most one pixel (the extra one on the right and at the bottom). With
/// `x0`, `y0` those left and top margins, frame pixel (`x`, `y`) inside the
/// rectangle shows pixel (`x - x0`, `y - y0`) of the scaled picture, and
/// every frame pixel outside it keeps its value.
pub proof fn lemma_draw_centered(
    v: ImgView,
    frame: Seq<u32>,
    fw: u32,
    fh: u32,
    uw: u32,
    uh: u32,
    x0: int,
    y0: int,
    x: int,
    y: int,
)
    requires
        spec_fit_rect(v.w, v.h, uw, uh).0 > 0,
        spec_fit_rect(v.w, v.h, uw, uh).1 > 0,
        spec_fit_rect(v.w, v.h, uw, uh).0 <= fw,
        spec_fit_rect(v.w, v.h, uw, uh).1 <= fh,
        fw as int * fh <= frame.len(),
        2 * x0 <= fw - spec_fit_rect(v.w, v.h, uw, uh).0 <= 2 * x0 + 1,
        2 * y0 <= fh - spec_fit_rect(v.w, v.h, uw, uh).1 <= 2 * y0 + 1,
        0 <= x < fw,
        0 <= y < fh,
    ensures
        ({
            let (tw, th) = spec_fit_rect(v.w, v.h, uw, uh);
            let out = spec_draw(v, frame, fw, fh, uw, uh);
            let i = y * fw + x;
            &&& out.len() == frame.len()
            &&& 0 <= i < frame.len()
            &&& x0 <= x < x0 + tw && y0 <= y < y0 + th ==> out[i] == spec_scale(v, tw, th)[(y - y0)
                * tw + (x - x0)]
            &&& !(x0 <= x < x0 + tw && y0 <= y < y0 + th) ==> out[i] == frame[i]
        }),
{
    let (tw, th) = spec_fit_rect(v.w, v.h, uw, uh);
    assert((fw - tw) / 2 == x0);
    assert((fh - th) / 2 == y0);
    lemma_index_of(y, x, fw as int, fh as int);
}

/// Scaling a picture to its own size only repacks its RGB bytes into
/// 0xRRGGBB pixels.
pub proof fn lemma_scale_native(v: ImgView, i: int)
    requires
        v.w > 0,
        v.h > 0,
        0 <= i < v.w as int * v.h as int,
    ensures
        spec_scale(v, v.w, v.h)[i] == rgb_at(v.rgb, 3 * i),
        spec_scale(v, v.w, v.h)[i] == v.rgb[3 * i] * 65536 + v.rgb[3 * i + 1] * 256 + v.rgb[3 * i
            + 2],
{
    let w = v.w as int;
    let h = v.h as int;
    let x = i % w;
    let y = i / w;
    lemma_row_col(i, w, h);
    assert(x * w / w == x) by {
        vstd::arithmetic::div_mod::lemma_div_multiples_vanish(x, w);
        assert(x * w == w * x) by (nonlinear_arith);
    }
    assert(y * h / h == y) by {
        vstd::arithmetic::div_mod::lemma_div_multiples_vanish(y, h);
        assert(y * h == h * y) by (nonlinear_arith);
    }
    assert((y * w + x) * 3 == 3 * i) by (nonlinear_arith)
        requires
            i == w * y + x,
    ;
}

} // verus!
