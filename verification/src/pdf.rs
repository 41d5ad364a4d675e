//! The PDF export format: every slide becomes one page that shows a single
//! flate-compressed RGB raster of the rendered frame. This module turns a
//! frame into its compressed raster and lays out the whole document: a
//! catalog, a page tree, then a page, a content stream and an image per
//! slide, followed by the cross-reference table and the trailer.
use std::io::Write;
use vstd::prelude::*;
use vstd::string::StringSliceAdditionalSpecFns;

use crate::draw::lemma_channels;
use crate::img::channel;

verus! {

/// The UTF-8 bytes of a text.
pub open spec fn text(s: &str) -> Seq<u8> {
    s.spec_bytes()
}

/// The decimal digits of `n` as ASCII bytes, without leading zeros.
pub open spec fn dec(n: nat) -> Seq<u8>
    decreases n,
{
    if n < 10 {
        seq![(48 + n) as u8]
    } else {
        dec(n / 10).push((48 + n % 10) as u8)
    }
}

/// The decimal digits of `n`, padded on the left with zeros to `width`.
pub open spec fn padded(n: nat, width: nat) -> Seq<u8> {
    if dec(n).len() < width {
        Seq::new((width - dec(n).len()) as nat, |i: int| 48u8) + dec(n)
    } else {
        dec(n)
    }
}

/// The number that a string of ASCII decimal digits spells, most significant
/// digit first (the empty string spells 0).
pub open spec fn digits_value(s: Seq<u8>) -> int
    decreases s.len(),
{
    if s.len() == 0 {
        0
    } else {
        digits_value(s.drop_last()) * 10 + (s.last() - 48)
    }
}

/// Every byte of `s` is an ASCII decimal digit.
pub open spec fn all_digits(s: Seq<u8>) -> bool {
    forall|i: int| 0 <= i < s.len() ==> 48 <= #[trigger] s[i] <= 57
}

/// The numeral written for any `n` is a non-empty string of decimal digits,
/// with no leading zero unless `n` is 0, that reads back as `n` itself.
pub proof fn lemma_dec_value(n: nat)
    ensures
        dec(n).len() > 0,
        all_digits(dec(n)),
        digits_value(dec(n)) == n,
        n > 0 ==> dec(n)[0] != 48u8,
    decreases n,
{
    if n >= 10 {
        lemma_dec_value(n / 10);
        let d = dec(n);
        assert(d.drop_last() =~= dec(n / 10));
        assert(d.last() == 48 + n % 10);
        assert(d[0] == dec(n / 10)[0]);
        assert forall|i: int| 0 <= i < d.len() implies 48 <= #[trigger] d[i] <= 57 by {
            if i < d.len() - 1 {
                assert(d[i] == dec(n / 10)[i]);
            }
        }
        assert(digits_value(d) == digits_value(dec(n / 10)) * 10 + (d.last() - 48));
    } else {
        let d = dec(n);
        assert(d.drop_last() =~= Seq::<u8>::empty());
        assert(d.last() == 48 + n);
        assert(digits_value(d) == digits_value(d.drop_last()) * 10 + (d.last() - 48));
    }
}

/// Zeros in front of a string of digits do not change the number it spells.
proof fn lemma_leading_zeros(k: nat, s: Seq<u8>)
    ensures
        digits_value(Seq::new(k, |i: int| 48u8) + s) == digits_value(s),
    decreases s.len(), k,
{
    let z = Seq::new(k, |i: int| 48u8);
    if s.len() == 0 {
        if k > 0 {
            assert((z + s).drop_last() =~= Seq::new((k - 1) as nat, |i: int| 48u8) + s);
            lemma_leading_zeros((k - 1) as nat, s);
        }
    } else {
        assert((z + s).drop_last() =~= z + s.drop_last());
        lemma_leading_zeros(k, s.drop_last());
    }
}

/// A zero-padded numeral is `width` digits long when `n` fits in that width,
/// consists of digits only, and reads back as `n`.
pub proof fn lemma_padded_value(n: nat, width: nat)
    ensures
        padded(n, width).len() == (if dec(n).len() < width { width } else { dec(n).len() }),
        all_digits(padded(n, width)),
        digits_value(padded(n, width)) == n,
{
    lemma_dec_value(n);
    if dec(n).len() < width {
        let k = (width - dec(n).len()) as nat;
        lemma_leading_zeros(k, dec(n));
        let p = padded(n, width);
        assert forall|i: int| 0 <= i < p.len() implies 48 <= #[trigger] p[i] <= 57 by {
            if i >= k {
                assert(p[i] == dec(n)[i - k]);
            }
        }
    }
}

/// Appends the bytes of `s`.
fn push_str(out: &mut Vec<u8>, s: &str)
    ensures
        final(out)@ == old(out)@ + text(s),
{
    let b = s.as_bytes();
    let n = b.len();
    let ghost start = out@;
    let mut i: usize = 0;
    while i < n
        invariant
            i <= n,
            n == b@.len(),
            b@ == text(s),
            out@ == start + b@.take(i as int),
        decreases n - i,
    {
        out.push(b[i]);
        i += 1;
        proof {
            assert(out@ =~= start + b@.take(i as int));
        }
    }
    proof {
        assert(b@.take(n as int) =~= b@);
    }
}

/// Appends `b`.
fn push_bytes(out: &mut Vec<u8>, b: &[u8])
    ensures
        final(out)@ == old(out)@ + b@,
{
    let n = b.len();
    let ghost start = out@;
    let mut i: usize = 0;
    while i < n
        invariant
            i <= n,
            n == b@.len(),
            out@ == start + b@.take(i as int),
        decreases n - i,
    {
        out.push(b[i]);
        i += 1;
        proof {
            assert(out@ =~= start + b@.take(i as int));
        }
    }
    proof {
        assert(b@.take(n as int) =~= b@);
    }
}

/// Appends the decimal digits of `n`.
fn push_dec(out: &mut Vec<u8>, n: u64)
    ensures
        final(out)@ == old(out)@ + dec(n as nat),
    decreases n,
{
    if n >= 10 {
        push_dec(out, n / 10);
    }
    out.push((48 + n % 10) as u8);
    proof {
        if n >= 10 {
            assert(old(out)@ + dec(n as nat) =~= old(out)@ + dec((n / 10) as nat) + seq![(48 + n % 10) as u8]);
        } else {
            assert(old(out)@ + dec(n as nat) =~= old(out)@ + seq![(48 + n % 10) as u8]);
        }
    }
}

/// The decimal digits of `n`.
fn decimal(n: u64) -> (d: Vec<u8>)
    ensures
        d@ == dec(n as nat),
{
    let mut d: Vec<u8> = Vec::new();
    push_dec(&mut d, n);
    proof {
        assert(d@ =~= dec(n as nat));
    }
    d
}

/// Appends the decimal digits of `n`, zero-padded to ten digits.
fn push_padded10(out: &mut Vec<u8>, n: u64)
    ensures
        final(out)@ == old(out)@ + padded(n as nat, 10),
{
    let d = decimal(n);
    let ghost start = out@;
    let mut k: usize = d.len();
    while k < 10
        invariant
            d@ == dec(n as nat),
            d@.len() <= k <= 10 || (k == d@.len() && k >= 10),
            out@ == start + Seq::new((k - d@.len()) as nat, |i: int| 48u8),
        decreases 10 - k,
    {
        out.push(48u8);
        k += 1;
        proof {
            assert(out@ =~= start + Seq::new((k - d@.len()) as nat, |i: int| 48u8));
        }
    }
    let ghost zeros = out@;
    push_bytes(out, d.as_slice());
    proof {
        if d@.len() < 10 {
            assert(out@ =~= start + padded(n as nat, 10));
        } else {
            assert(zeros =~= start);
            assert(out@ =~= start + padded(n as nat, 10));
        }
    }
}


/// An indirect object: `id 0 obj`, the body, `endobj`.
pub open spec fn indirect_object(id: nat, body: Seq<u8>) -> Seq<u8> {
    dec(id) + text(" 0 obj\n") + body + text("endobj\n")
}

/// The catalog's dictionary (object 1).
pub open spec fn catalog_body() -> Seq<u8> {
    text("<< /Type /Catalog /Pages 2 0 R >>\n")
}

/// References to the first `n` pages (objects 3, 6, 9, ...).
pub open spec fn kids(n: nat) -> Seq<u8>
    decreases n,
{
    if n == 0 {
        Seq::empty()
    } else {
        kids((n - 1) as nat) + dec(3 + 3 * (n - 1) as nat) + text(" 0 R ")
    }
}

/// The page tree's dictionary (object 2) for `n` pages.
pub open spec fn pages_body(n: nat) -> Seq<u8> {
    text("<< /Type /Pages /Kids [ ") + kids(n) + text("] /Count ") + dec(n) + text(" >>\n")
}

/// The dictionary of page `i`: a `pw` x `ph` media box, its image and its
/// content stream.
pub open spec fn page_body(i: nat, pw: nat, ph: nat) -> Seq<u8> {
    text("<< /Type /Page /Parent 2 0 R /MediaBox [0 0 ") + dec(pw) + text(" ") + dec(ph) + text(
        "] /Resources << /XObject << /I ",
    ) + dec(3 * i + 5) + text(" 0 R >> >> /Contents ") + dec(3 * i + 4) + text(" 0 R >>\n")
}

/// The content stream of a page: the image stretched over the media box.
pub open spec fn page_content(pw: nat, ph: nat) -> Seq<u8> {
    text("q ") + dec(pw) + text(" 0 0 ") + dec(ph) + text(" 0 0 cm /I Do Q")
}

/// A stream object's body: its dictionary (which ends in `/Length` and the
/// data's length), then the data between `stream` and `endstream`.
pub open spec fn stream_body(dict: Seq<u8>, data: Seq<u8>) -> Seq<u8> {
    dict + dec(data.len()) + text(" >>\nstream\n") + data + text("\nendstream\n")
}

pub open spec fn content_body(pw: nat, ph: nat) -> Seq<u8> {
    stream_body(text("<< /Length "), page_content(pw, ph))
}

/// The image object's body: a `w` x `h` 8-bit RGB raster, flate-compressed.
pub open spec fn image_body(w: nat, h: nat, data: Seq<u8>) -> Seq<u8> {
    stream_body(
        text("<< /Type /XObject /Subtype /Image /Width ") + dec(w) + text(" /Height ") + dec(h)
            + text(
            " /ColorSpace /DeviceRGB /BitsPerComponent 8 /Filter /FlateDecode /Length ",
        ),
        data,
    )
}

proof fn lemma_encode_add(a: Seq<char>, b: Seq<char>)
    ensures
        vstd::utf8::encode_utf8(a + b) == vstd::utf8::encode_utf8(a) + vstd::utf8::encode_utf8(b),
    decreases a.len(),
{
    if a.len() == 0 {
        assert(a + b =~= b);
        assert(vstd::utf8::encode_utf8(a) + vstd::utf8::encode_utf8(b) =~= vstd::utf8::encode_utf8(b));
    } else {
        assert((a + b)[0] == a[0]);
        assert((a + b).drop_first() =~= a.drop_first() + b);
        lemma_encode_add(a.drop_first(), b);
        let s = vstd::utf8::encode_scalar(a[0] as u32);
        assert(s + (vstd::utf8::encode_utf8(a.drop_first()) + vstd::utf8::encode_utf8(b)) =~= (s
            + vstd::utf8::encode_utf8(a.drop_first())) + vstd::utf8::encode_utf8(b));
    }
}

/// The image stream's length field is right for every raster: its
/// dictionary ends in `/Length` and a decimal numeral that reads back as
/// the number of compressed bytes, and those bytes follow `stream`
/// unchanged.
pub proof fn lemma_image_length(w: nat, h: nat, data: Seq<u8>)
    ensures
        exists|front: Seq<u8>, len: Seq<u8>|
            #![auto]
            image_body(w, h, data) == front + text("/Length ") + len + text(" >>\nstream\n") + data
                + text("\nendstream\n") && len.len() > 0 && all_digits(len) && digits_value(len)
                == data.len(),
{
    let whole = " /ColorSpace /DeviceRGB /BitsPerComponent 8 /Filter /FlateDecode /Length ";
    let head = " /ColorSpace /DeviceRGB /BitsPerComponent 8 /Filter /FlateDecode ";
    let tail = "/Length ";
    reveal_strlit(" /ColorSpace /DeviceRGB /BitsPerComponent 8 /Filter /FlateDecode /Length ");
    reveal_strlit(" /ColorSpace /DeviceRGB /BitsPerComponent 8 /Filter /FlateDecode ");
    reveal_strlit("/Length ");
    assert(whole@ =~= head@ + tail@);
    lemma_encode_add(head@, tail@);
    assert(text(whole) == text(head) + text(tail));
    let front = text("<< /Type /XObject /Subtype /Image /Width ") + dec(w) + text(" /Height ")
        + dec(h) + text(head);
    let len = dec(data.len());
    lemma_dec_value(data.len());
    assert(image_body(w, h, data) =~= front + text(tail) + len + text(" >>\nstream\n") + data
        + text("\nendstream\n"));
}

/// Object number `k + 3` of the document: page, content stream and image of
/// slide `k / 3`, in turn.
pub open spec fn slide_object(w: nat, h: nat, pw: nat, ph: nat, images: Seq<Seq<u8>>, k: int) -> Seq<u8> {
    let i = k / 3;
    let id = (k + 3) as nat;
    if k % 3 == 0 {
        indirect_object(id, page_body(i as nat, pw, ph))
    } else if k % 3 == 1 {
        indirect_object(id, content_body(pw, ph))
    } else {
        indirect_object(id, image_body(w, h, images[i]))
    }
}

/// All objects of the document, in order (object `k + 1` at index `k`):
/// the catalog, the page tree, then three objects per slide.
pub open spec fn objects(w: nat, h: nat, pw: nat, ph: nat, images: Seq<Seq<u8>>) -> Seq<Seq<u8>> {
    seq![
        indirect_object(1, catalog_body()),
        indirect_object(2, pages_body(images.len())),
    ] + Seq::new(3 * images.len(), |k: int| slide_object(w, h, pw, ph, images, k))
}

pub open spec fn bytes_view(v: Seq<Vec<u8>>) -> Seq<Seq<u8>> {
    v.map_values(|b: Vec<u8>| b@)
}

/// Builds `id 0 obj`, `body`, `endobj`.
fn finish_object(id: u64, body: &Vec<u8>) -> (o: Vec<u8>)
    ensures
        o@ == indirect_object(id as nat, body@),
{
    let mut o: Vec<u8> = Vec::new();
    push_dec(&mut o, id);
    push_str(&mut o, " 0 obj\n");
    push_bytes(&mut o, body.as_slice());
    push_str(&mut o, "endobj\n");
    proof {
        assert(o@ =~= indirect_object(id as nat, body@));
    }
    o
}

fn stream(dict: Vec<u8>, data: &[u8]) -> (b: Vec<u8>)
    ensures
        b@ == stream_body(dict@, data@),
{
    let mut b = dict;
    let ghost d = b@;
    push_dec(&mut b, data.len() as u64);
    push_str(&mut b, " >>\nstream\n");
    push_bytes(&mut b, data);
    push_str(&mut b, "\nendstream\n");
    proof {
        assert(b@ =~= stream_body(d, data@));
    }
    b
}

fn pages_object(n: u64) -> (o: Vec<u8>)
    requires
        3 * n + 3 <= u64::MAX,
    ensures
        o@ == indirect_object(2, pages_body(n as nat)),
{
    let mut b: Vec<u8> = Vec::new();
    push_str(&mut b, "<< /Type /Pages /Kids [ ");
    let ghost start = b@;
    let mut i: u64 = 0;
    while i < n
        invariant
            i <= n,
            3 * n + 3 <= u64::MAX,
            b@ == start + kids(i as nat),
        decreases n - i,
    {
        push_dec(&mut b, 3 + 3 * i);
        push_str(&mut b, " 0 R ");
        i += 1;
        proof {
            assert(b@ =~= start + kids(i as nat));
        }
    }
    push_str(&mut b, "] /Count ");
    push_dec(&mut b, n);
    push_str(&mut b, " >>\n");
    proof {
        assert(b@ =~= pages_body(n as nat));
    }
    finish_object(2, &b)
}

fn page_object(i: u64, pw: u32, ph: u32) -> (o: Vec<u8>)
    requires
        3 * i + 5 <= u64::MAX,
    ensures
        o@ == indirect_object((3 * i + 3) as nat, page_body(i as nat, pw as nat, ph as nat)),
{
    let mut b: Vec<u8> = Vec::new();
    push_str(&mut b, "<< /Type /Page /Parent 2 0 R /MediaBox [0 0 ");
    push_dec(&mut b, pw as u64);
    push_str(&mut b, " ");
    push_dec(&mut b, ph as u64);
    push_str(&mut b, "] /Resources << /XObject << /I ");
    push_dec(&mut b, 3 * i + 5);
    push_str(&mut b, " 0 R >> >> /Contents ");
    push_dec(&mut b, 3 * i + 4);
    push_str(&mut b, " 0 R >>\n");
    proof {
        assert(b@ =~= page_body(i as nat, pw as nat, ph as nat));
    }
    finish_object(3 * i + 3, &b)
}

fn content_object(i: u64, pw: u32, ph: u32) -> (o: Vec<u8>)
    requires
        3 * i + 5 <= u64::MAX,
    ensures
        o@ == indirect_object((3 * i + 4) as nat, content_body(pw as nat, ph as nat)),
{
    let mut cs: Vec<u8> = Vec::new();
    push_str(&mut cs, "q ");
    push_dec(&mut cs, pw as u64);
    push_str(&mut cs, " 0 0 ");
    push_dec(&mut cs, ph as u64);
    push_str(&mut cs, " 0 0 cm /I Do Q");
    proof {
        assert(cs@ =~= page_content(pw as nat, ph as nat));
    }
    let mut d: Vec<u8> = Vec::new();
    push_str(&mut d, "<< /Length ");
    let b = stream(d, cs.as_slice());
    finish_object(3 * i + 4, &b)
}

fn image_object(i: u64, w: u32, h: u32, data: &[u8]) -> (o: Vec<u8>)
    requires
        3 * i + 5 <= u64::MAX,
    ensures
        o@ == indirect_object((3 * i + 5) as nat, image_body(w as nat, h as nat, data@)),
{
    let mut d: Vec<u8> = Vec::new();
    push_str(&mut d, "<< /Type /XObject /Subtype /Image /Width ");
    push_dec(&mut d, w as u64);
    push_str(&mut d, " /Height ");
    push_dec(&mut d, h as u64);
    push_str(&mut d, " /ColorSpace /DeviceRGB /BitsPerComponent 8 /Filter /FlateDecode /Length ");
    let b = stream(d, data);
    finish_object(3 * i + 5, &b)
}

proof fn lemma_slide_objects(w: nat, h: nat, pw: nat, ph: nat, imgs: Seq<Seq<u8>>, i: int)
    requires
        0 <= i < imgs.len(),
    ensures
        objects(w, h, pw, ph, imgs).len() == 2 + 3 * imgs.len(),
        objects(w, h, pw, ph, imgs)[2 + 3 * i] == indirect_object((3 * i + 3) as nat, page_body(i as nat, pw, ph)),
        objects(w, h, pw, ph, imgs)[3 + 3 * i] == indirect_object((3 * i + 4) as nat, content_body(pw, ph)),
        objects(w, h, pw, ph, imgs)[4 + 3 * i] == indirect_object((3 * i + 5) as nat, image_body(w, h, imgs[i])),
{
    let k = 3 * i;
    vstd::arithmetic::div_mod::lemma_fundamental_div_mod_converse(k, 3, i, 0);
    vstd::arithmetic::div_mod::lemma_fundamental_div_mod_converse(k + 1, 3, i, 1);
    vstd::arithmetic::div_mod::lemma_fundamental_div_mod_converse(k + 2, 3, i, 2);
}

proof fn lemma_take_extend<A>(s: Seq<A>, k: int)
    requires
        0 <= k,
        k + 3 <= s.len(),
    ensures
        s.take(k + 3) == s.take(k).push(s[k]).push(s[k + 1]).push(s[k + 2]),
{
    assert(s.take(k + 3) =~= s.take(k).push(s[k]).push(s[k + 1]).push(s[k + 2]));
}

/// The objects of the document (see `objects`).
fn build_objects(w: u32, h: u32, pw: u32, ph: u32, images: &Vec<Vec<u8>>) -> (objs: Vec<Vec<u8>>)
    requires
        3 * images@.len() + 3 <= usize::MAX,
    ensures
        bytes_view(objs@) == objects(w as nat, h as nat, pw as nat, ph as nat, bytes_view(images@)),
{
    let ghost imgs = bytes_view(images@);
    let ghost all = objects(w as nat, h as nat, pw as nat, ph as nat, imgs);
    let n = images.len();
    let mut objs: Vec<Vec<u8>> = Vec::new();
    let mut catalog: Vec<u8> = Vec::new();
    push_str(&mut catalog, "<< /Type /Catalog /Pages 2 0 R >>\n");
    objs.push(finish_object(1, &catalog));
    objs.push(pages_object(n as u64));
    proof {
        assert(bytes_view(objs@) =~= all.take(2));
    }
    let mut i: usize = 0;
    while i < n
        invariant
            i <= n,
            n == images@.len(),
            3 * n + 3 <= usize::MAX,
            usize::MAX <= u64::MAX,
            imgs == bytes_view(images@),
            all == objects(w as nat, h as nat, pw as nat, ph as nat, imgs),
            bytes_view(objs@) == all.take(2 + 3 * i),
        decreases n - i,
    {
        let ghost before = objs@;
        let page = page_object(i as u64, pw, ph);
        let content = content_object(i as u64, pw, ph);
        let image = image_object(i as u64, w, h, images[i].as_slice());
        proof {
            lemma_slide_objects(w as nat, h as nat, pw as nat, ph as nat, imgs, i as int);
        }
        objs.push(page);
        objs.push(content);
        objs.push(image);
        proof {
            assert(objs@ == before.push(page).push(content).push(image));
            lemma_take_extend(all, 2 + 3 * i as int);
            assert(bytes_view(objs@) =~= bytes_view(before).push(page@).push(content@).push(image@));
        }
        i += 1;
    }
    proof {
        assert(all.take(2 + 3 * n) =~= all);
    }
    objs
}


/// The file header: version line and a binary-marker comment.
pub open spec fn header() -> Seq<u8> {
    text("%PDF-1.4\n%\u{b5}\u{b6}\n")
}

/// The byte sequences one after the other.
pub open spec fn concat(s: Seq<Seq<u8>>) -> Seq<u8>
    decreases s.len(),
{
    if s.len() == 0 {
        Seq::empty()
    } else {
        concat(s.drop_last()) + s.last()
    }
}

/// Where each object starts in the file.
pub open spec fn offsets(objs: Seq<Seq<u8>>) -> Seq<nat> {
    Seq::new(objs.len(), |k: int| (header().len() + concat(objs.take(k)).len()) as nat)
}

/// A cross-reference entry of an object in use at `off`.
pub open spec fn xref_entry(off: nat) -> Seq<u8> {
    padded(off, 10) + text(" 00000 n \n")
}

/// The in-use entries, one per offset.
pub open spec fn xref_entries(offs: Seq<nat>) -> Seq<Seq<u8>> {
    offs.map_values(|o: nat| xref_entry(o))
}

/// The cross-reference table: the free entry of object 0, then one in-use
/// entry per object, giving its offset.
pub open spec fn xref_table(offs: Seq<nat>) -> Seq<u8> {
    text("xref\n0 ") + dec(offs.len() + 1) + text("\n0000000000 65535 f \n") + concat(
        xref_entries(offs),
    )
}

pub open spec fn offsets_view(v: Seq<u64>) -> Seq<nat> {
    v.map_values(|o: u64| o as nat)
}

/// The trailer: table size, root object and where the table starts.
pub open spec fn trailer(n: nat, xref_at: nat) -> Seq<u8> {
    text("trailer\n<< /Size ") + dec(n + 1) + text(" /Root 1 0 R >>\nstartxref\n") + dec(xref_at)
        + text("\n%%EOF\n")
}

/// Where the cross-reference table starts.
pub open spec fn xref_start(objs: Seq<Seq<u8>>) -> nat {
    header().len() + concat(objs).len()
}

/// A file made of the given objects: header, objects, cross-reference table
/// and trailer.
pub open spec fn layout(objs: Seq<Seq<u8>>) -> Seq<u8> {
    header() + concat(objs) + xref_table(offsets(objs)) + trailer(objs.len(), xref_start(objs))
}

/// The exported document for slides whose compressed `w` x `h` rasters are
/// `images`, on `pw` x `ph` pages.
pub open spec fn spec_document(w: nat, h: nat, pw: nat, ph: nat, images: Seq<Seq<u8>>) -> Seq<u8> {
    layout(objects(w, h, pw, ph, images))
}

proof fn lemma_concat_push(s: Seq<Seq<u8>>, x: Seq<u8>)
    ensures
        concat(s.push(x)) == concat(s) + x,
{
    assert(s.push(x).drop_last() =~= s);
}

proof fn lemma_concat_add(a: Seq<Seq<u8>>, b: Seq<Seq<u8>>)
    ensures
        concat(a + b) == concat(a) + concat(b),
    decreases b.len(),
{
    if b.len() == 0 {
        assert(a + b =~= a);
        assert(concat(a) + concat(b) =~= concat(a));
    } else {
        lemma_concat_add(a, b.drop_last());
        assert((a + b).drop_last() =~= a + b.drop_last());
        assert(concat(a + b) =~= concat(a) + concat(b));
    }
}

/// Each object stands in the file at the offset that the cross-reference
/// table gives for it.
pub proof fn lemma_object_at_offset(objs: Seq<Seq<u8>>, k: int)
    requires
        0 <= k < objs.len(),
    ensures
        layout(objs).subrange(offsets(objs)[k] as int, (offsets(objs)[k] + objs[k].len()) as int) == objs[k],
{
    let pre = header() + concat(objs.take(k));
    assert(objs =~= objs.take(k).push(objs[k]) + objs.skip(k + 1));
    lemma_concat_add(objs.take(k).push(objs[k]), objs.skip(k + 1));
    lemma_concat_push(objs.take(k), objs[k]);
    assert(layout(objs) =~= pre + objs[k] + (concat(objs.skip(k + 1)) + xref_table(offsets(objs))
        + trailer(objs.len(), xref_start(objs))));
    assert(layout(objs).subrange(pre.len() as int, (pre.len() + objs[k].len()) as int) =~= objs[k]);
}

proof fn lemma_offset_bound(objs: Seq<Seq<u8>>, k: int)
    requires
        0 <= k < objs.len(),
    ensures
        offsets(objs)[k] + objs[k].len() <= layout(objs).len(),
{
    assert(objs =~= objs.take(k).push(objs[k]) + objs.skip(k + 1));
    lemma_concat_add(objs.take(k).push(objs[k]), objs.skip(k + 1));
    lemma_concat_push(objs.take(k), objs[k]);
}

/// The `startxref` value points at the cross-reference table.
pub proof fn lemma_startxref(objs: Seq<Seq<u8>>)
    ensures
        layout(objs).subrange(
            xref_start(objs) as int,
            (xref_start(objs) + xref_table(offsets(objs)).len()) as int,
        ) == xref_table(offsets(objs)),
{
    let pre = header() + concat(objs);
    assert(layout(objs) =~= pre + xref_table(offsets(objs)) + trailer(objs.len(), xref_start(objs)));
    assert(layout(objs).subrange(pre.len() as int, (pre.len() + xref_table(offsets(objs)).len()) as int)
        =~= xref_table(offsets(objs)));
}

/// The cross-reference table for objects at `offs`.
fn build_xref_table(offs: &Vec<u64>) -> (t: Vec<u8>)
    requires
        offs@.len() < u64::MAX,
    ensures
        t@ == xref_table(offsets_view(offs@)),
{
    let n = offs.len();
    let mut head: Vec<u8> = Vec::new();
    push_str(&mut head, "xref\n0 ");
    push_dec(&mut head, n as u64 + 1);
    push_str(&mut head, "\n0000000000 65535 f \n");
    let ghost offv = offsets_view(offs@);
    let ghost entries = xref_entries(offv);
    let mut lines: Vec<u8> = Vec::new();
    let mut j: usize = 0;
    proof {
        assert(entries.take(0) =~= Seq::<Seq<u8>>::empty());
    }
    while j < n
        invariant
            j <= n,
            n == offs@.len(),
            offv == offsets_view(offs@),
            entries == xref_entries(offv),
            lines@ == concat(entries.take(j as int)),
        decreases n - j,
    {
        let off = offs[j];
        push_padded10(&mut lines, off);
        push_str(&mut lines, " 00000 n \n");
        proof {
            assert(offv[j as int] == off as nat);
            assert(entries.take(j + 1) =~= entries.take(j as int).push(entries[j as int]));
            lemma_concat_push(entries.take(j as int), entries[j as int]);
        }
        j += 1;
    }
    proof {
        assert(entries.take(n as int) =~= entries);
    }
    let ghost h = head@;
    push_bytes(&mut head, lines.as_slice());
    proof {
        assert(h == text("xref\n0 ") + dec(offv.len() + 1) + text("\n0000000000 65535 f \n"));
    }
    head
}

/// The trailer for `n` objects and a table at `xref_at`.
fn build_trailer(n: u64, xref_at: u64) -> (t: Vec<u8>)
    requires
        n < u64::MAX,
    ensures
        t@ == trailer(n as nat, xref_at as nat),
{
    let mut t: Vec<u8> = Vec::new();
    push_str(&mut t, "trailer\n<< /Size ");
    push_dec(&mut t, n + 1);
    push_str(&mut t, " /Root 1 0 R >>\nstartxref\n");
    push_dec(&mut t, xref_at);
    push_str(&mut t, "\n%%EOF\n");
    t
}

/// Lays out the file (see `layout`).
fn assemble(objs: &Vec<Vec<u8>>) -> (pdf: Vec<u8>)
    requires
        objs@.len() < usize::MAX,
    ensures
        pdf@ == layout(bytes_view(objs@)),
{
    let ghost all = bytes_view(objs@);
    let n = objs.len();
    let mut pdf: Vec<u8> = Vec::new();
    push_str(&mut pdf, "%PDF-1.4\n%\u{b5}\u{b6}\n");
    let mut offs: Vec<u64> = Vec::new();
    let mut k: usize = 0;
    proof {
        assert(all.take(0) =~= Seq::<Seq<u8>>::empty());
        assert(pdf@ =~= header() + concat(all.take(0)));
        assert(offsets_view(offs@) =~= offsets(all).take(0));
    }
    while k < n
        invariant
            k <= n,
            n == objs@.len(),
            all == bytes_view(objs@),
            pdf@ == header() + concat(all.take(k as int)),
            offsets_view(offs@) == offsets(all).take(k as int),
        decreases n - k,
    {
        let ghost offs_before = offs@;
        let at = pdf.len() as u64;
        offs.push(at);
        push_bytes(&mut pdf, objs[k].as_slice());
        proof {
            assert(at as nat == offsets(all)[k as int]);
            assert(offs@ == offs_before.push(at));
            assert(offsets_view(offs@) =~= offsets_view(offs_before).push(at as nat));
            assert(offsets(all).take(k + 1) =~= offsets(all).take(k as int).push(offsets(all)[k as int]));
            assert(offsets_view(offs@) =~= offsets(all).take(k + 1));
            assert(all.take(k + 1) =~= all.take(k as int).push(all[k as int]));
            lemma_concat_push(all.take(k as int), all[k as int]);
        }
        k += 1;
    }
    proof {
        assert(all.take(n as int) =~= all);
        assert(offsets_view(offs@) =~= offsets(all));
    }
    let xref_at = pdf.len();
    let table = build_xref_table(&offs);
    let tail = build_trailer(n as u64, xref_at as u64);
    push_bytes(&mut pdf, table.as_slice());
    push_bytes(&mut pdf, tail.as_slice());
    proof {
        assert(xref_at == xref_start(all));
    }
    pdf
}

/// The whole PDF file for slides whose compressed rasters (`w` x `h`, made
/// by `page_image`) are `images`, each on a `pw` x `ph` page (see
/// `spec_document`).
pub fn document(w: u32, h: u32, pw: u32, ph: u32, images: &Vec<Vec<u8>>) -> (pdf: Vec<u8>)
    requires
        3 * images@.len() + 3 <= usize::MAX,
    ensures
        pdf@ == spec_document(w as nat, h as nat, pw as nat, ph as nat, bytes_view(images@)),
{
    let objs = build_objects(w, h, pw, ph, images);
    proof {
        assert(objs@.len() == bytes_view(objs@).len());
        assert(objects(w as nat, h as nat, pw as nat, ph as nat, bytes_view(images@)).len() == 2 + 3 * images@.len());
    }
    assemble(&objs)
}


/// The body of object `k + 1` of the document.
pub open spec fn object_body(w: nat, h: nat, pw: nat, ph: nat, images: Seq<Seq<u8>>, k: int) -> Seq<u8> {
    if k == 0 {
        catalog_body()
    } else if k == 1 {
        pages_body(images.len())
    } else {
        let j = k - 2;
        let i = j / 3;
        if j % 3 == 0 {
            page_body(i as nat, pw, ph)
        } else if j % 3 == 1 {
            content_body(pw, ph)
        } else {
            image_body(w, h, images[i])
        }
    }
}

proof fn lemma_objects_shape(w: nat, h: nat, pw: nat, ph: nat, images: Seq<Seq<u8>>, k: int)
    requires
        0 <= k < 2 + 3 * images.len(),
    ensures
        objects(w, h, pw, ph, images).len() == 2 + 3 * images.len(),
        objects(w, h, pw, ph, images)[k] == indirect_object(
            (k + 1) as nat,
            object_body(w, h, pw, ph, images, k),
        ),
{
}

proof fn lemma_object_opening(id: nat, body: Seq<u8>)
    ensures
        indirect_object(id, body).subrange(0, (dec(id) + text(" 0 obj\n")).len() as int) == dec(id)
            + text(" 0 obj\n"),
{
    let opening = dec(id) + text(" 0 obj\n");
    assert(indirect_object(id, body) =~= opening + (body + text("endobj\n")));
    assert(indirect_object(id, body).subrange(0, opening.len() as int) =~= opening);
}

proof fn lemma_nested_prefix(d: Seq<u8>, off: int, obj: Seq<u8>, opening: Seq<u8>)
    requires
        0 <= off,
        off + obj.len() <= d.len(),
        opening.len() <= obj.len(),
        d.subrange(off, off + obj.len()) == obj,
        obj.subrange(0, opening.len() as int) == opening,
    ensures
        d.subrange(off, off + opening.len()) == opening,
{
    assert(d.subrange(off, off + opening.len()) =~= obj.subrange(0, opening.len() as int));
}

/// Each object of the exported document stands at the offset that the
/// cross-reference table gives for it, and opens with its own number:
/// entry `k` of the table points at `k + 1 0 obj`.
pub proof fn lemma_document_xref(w: nat, h: nat, pw: nat, ph: nat, images: Seq<Seq<u8>>, k: int)
    requires
        0 <= k < 2 + 3 * images.len(),
    ensures
        ({
            let objs = objects(w, h, pw, ph, images);
            let d = spec_document(w, h, pw, ph, images);
            let off = offsets(objs)[k];
            let opening = dec((k + 1) as nat) + text(" 0 obj\n");
            &&& objs.len() == 2 + 3 * images.len()
            &&& d.subrange(off as int, (off + objs[k].len()) as int) == objs[k]
            &&& d.subrange(off as int, (off + opening.len()) as int) == opening
        }),
{
    let objs = objects(w, h, pw, ph, images);
    let d = layout(objs);
    let off = offsets(objs)[k];
    let obj = objs[k];
    let opening = dec((k + 1) as nat) + text(" 0 obj\n");
    lemma_objects_shape(w, h, pw, ph, images, k);
    lemma_object_at_offset(objs, k);
    lemma_object_opening((k + 1) as nat, object_body(w, h, pw, ph, images, k));
    assert(opening.len() <= obj.len());
    assert(off + obj.len() <= d.len()) by {
        lemma_offset_bound(objs, k);
    }
    lemma_nested_prefix(d, off as int, obj, opening);
}

/// The RGB bytes of a frame of 0xRRGGBB pixels, pixel by pixel.
pub open spec fn frame_rgb(frame: Seq<u32>) -> Seq<u8> {
    Seq::new(3 * frame.len(), |i: int| channel(frame[i / 3], i % 3) as u8)
}

/// The raster keeps the pixels in order and each pixel's channels in RGB
/// order: bytes `3k`, `3k + 1`, `3k + 2` are the red, green and blue bytes
/// of the 0xRRGGBB pixel `k`.
pub proof fn lemma_frame_rgb(frame: Seq<u32>, k: int)
    requires
        0 <= k < frame.len(),
    ensures
        frame_rgb(frame).len() == 3 * frame.len(),
        frame_rgb(frame)[3 * k] == (frame[k] as int / 65536) % 256,
        frame_rgb(frame)[3 * k + 1] == (frame[k] as int / 256) % 256,
        frame_rgb(frame)[3 * k + 2] == frame[k] as int % 256,
{
    vstd::arithmetic::div_mod::lemma_fundamental_div_mod_converse(3 * k, 3, k, 0);
    vstd::arithmetic::div_mod::lemma_fundamental_div_mod_converse(3 * k + 1, 3, k, 1);
    vstd::arithmetic::div_mod::lemma_fundamental_div_mod_converse(3 * k + 2, 3, k, 2);
}

/// The RGB bytes of a frame (see `frame_rgb`).
pub fn frame_to_rgb(frame: &[u32]) -> (rgb: Vec<u8>)
    ensures
        rgb@ == frame_rgb(frame@),
{
    let n = frame.len();
    let mut rgb: Vec<u8> = Vec::new();
    let mut i: usize = 0;
    while i < n
        invariant
            i <= n,
            n == frame@.len(),
            rgb@ == frame_rgb(frame@).take(3 * i),
        decreases n - i,
    {
        let p = frame[i];
        proof {
            lemma_channels(p);
        }
        rgb.push(((p >> 16) & 0xFF) as u8);
        rgb.push(((p >> 8) & 0xFF) as u8);
        rgb.push((p & 0xFF) as u8);
        proof {
            vstd::arithmetic::div_mod::lemma_fundamental_div_mod_converse(3 * i, 3, i as int, 0);
            vstd::arithmetic::div_mod::lemma_fundamental_div_mod_converse(3 * i + 1, 3, i as int, 1);
            vstd::arithmetic::div_mod::lemma_fundamental_div_mod_converse(3 * i + 2, 3, i as int, 2);
            assert(rgb@ =~= frame_rgb(frame@).take(3 * i + 3));
        }
        i += 1;
    }
    proof {
        assert(frame_rgb(frame@).take(3 * n) =~= frame_rgb(frame@));
    }
    rgb
}

#[verifier::external_type_specification]
#[verifier::external_body]
pub struct ExIoError(std::io::Error);

/// The zlib stream (RFC 1950, deflate at flate2's default level) that
/// flate2's `ZlibEncoder` writes for `data`.
pub uninterp spec fn zlib_compress(data: Seq<u8>) -> Seq<u8>;

/// Compresses `data` with flate2: `ZlibEncoder::new` over an empty `Vec`
/// at `Compression::default()`, `write_all`, then `finish`. The stream it
/// returns is named `zlib_compress`. It always succeeds: the encoder's only
/// errors (flate2's `zio::Writer::dump`, `write_with_status` and `finish`)
/// come from a failing inner writer, and writing to a `Vec` never fails, or
/// from miniz_oxide rejecting a broken flush sequence, which flate2 never
/// issues.
#[verifier::external_body]
fn zlib(data: &[u8]) -> (r: Result<Vec<u8>, std::io::Error>)
    ensures
        r is Ok,
        r matches Ok(z) ==> z@ == zlib_compress(data@),
{
    let mut enc = flate2::write::ZlibEncoder::new(Vec::new(), flate2::Compression::default());
    enc.write_all(data)?;
    enc.finish()
}

/// The image stream of one page: the frame's RGB bytes, zlib-compressed.
pub fn page_image(frame: &[u32]) -> (z: Vec<u8>)
    ensures
        z@ == zlib_compress(frame_rgb(frame@)),
{
    let rgb = frame_to_rgb(frame);
    match zlib(rgb.as_slice()) {
        Ok(z) => z,
        Err(_) => {
            proof {
                assert(false);
            }
            Vec::new()
        },
    }
}

} // verus!
