use std::io::{Read, Write};

use flate2::read::ZlibDecoder;
use rent::pdf::{document, frame_to_rgb, page_image};

fn find(hay: &[u8], needle: &[u8], from: usize) -> Option<usize> {
    hay[from..]
        .windows(needle.len())
        .position(|w| w == needle)
        .map(|p| p + from)
}

fn count(hay: &[u8], needle: &[u8]) -> usize {
    hay.windows(needle.len()).filter(|w| *w == needle).count()
}

fn parse_usize_at(bytes: &[u8], mut p: usize) -> usize {
    let start = p;
    while p < bytes.len() && bytes[p].is_ascii_digit() {
        p += 1;
    }
    std::str::from_utf8(&bytes[start..p]).unwrap().parse().unwrap()
}

const W: u32 = 16;
const H: u32 = 9;

/* a white frame with a dark bar, like a slide with some text */
fn frame(shade: u32) -> Vec<u32> {
    let mut f = vec![0xFFFFFFu32; (W * H) as usize];
    for x in 2..10 {
        f[(4 * W + x) as usize] = shade;
    }
    f
}

fn two_page_pdf() -> (Vec<u8>, Vec<Vec<u8>>) {
    let images = vec![page_image(&frame(0x101010)), page_image(&frame(0x202020))];
    (document(W, H, 1280, 720, &images), images)
}

/* the same layout written with format!, object by object */
fn reference_pdf(w: u32, h: u32, pw: u32, ph: u32, images: &[Vec<u8>]) -> Vec<u8> {
    let n = images.len();
    let mut objs: Vec<Vec<u8>> = Vec::new();
    let kids: String = (0..n).map(|i| format!("{} 0 R ", 3 + 3 * i)).collect();
    objs.push("1 0 obj\n<< /Type /Catalog /Pages 2 0 R >>\nendobj\n".into());
    objs.push(format!("2 0 obj\n<< /Type /Pages /Kids [ {kids}] /Count {n} >>\nendobj\n").into_bytes());
    for (i, data) in images.iter().enumerate() {
        let page_id = 3 + 3 * i;
        let content_id = page_id + 1;
        let image_id = page_id + 2;
        objs.push(
            format!(
                "{page_id} 0 obj\n<< /Type /Page /Parent 2 0 R /MediaBox [0 0 {pw} {ph}] \
                 /Resources << /XObject << /I {image_id} 0 R >> >> \
                 /Contents {content_id} 0 R >>\nendobj\n"
            )
            .into_bytes(),
        );
        let cs = format!("q {pw} 0 0 {ph} 0 0 cm /I Do Q");
        objs.push(
            format!("{content_id} 0 obj\n<< /Length {} >>\nstream\n{cs}\nendstream\nendobj\n", cs.len())
                .into_bytes(),
        );
        let mut img_obj = format!(
            "{image_id} 0 obj\n<< /Type /XObject /Subtype /Image /Width {w} /Height {h} \
             /ColorSpace /DeviceRGB /BitsPerComponent 8 /Filter /FlateDecode \
             /Length {} >>\nstream\n",
            data.len()
        )
        .into_bytes();
        img_obj.extend_from_slice(data);
        img_obj.extend_from_slice(b"\nendstream\nendobj\n");
        objs.push(img_obj);
    }
    let mut pdf: Vec<u8> = Vec::new();
    pdf.extend_from_slice(b"%PDF-1.4\n%\xC2\xB5\xC2\xB6\n");
    let mut offsets = Vec::new();
    for o in &objs {
        offsets.push(pdf.len());
        pdf.extend_from_slice(o);
    }
    let xref_off = pdf.len();
    pdf.extend_from_slice(format!("xref\n0 {}\n0000000000 65535 f \n", objs.len() + 1).as_bytes());
    for off in offsets {
        pdf.extend_from_slice(format!("{off:010} 00000 n \n").as_bytes());
    }
    pdf.extend_from_slice(
        format!("trailer\n<< /Size {} /Root 1 0 R >>\nstartxref\n{xref_off}\n%%EOF\n", objs.len() + 1)
            .as_bytes(),
    );
    pdf
}

#[test]
fn document_writes_valid_pdf_skeleton() {
    let (bytes, _) = two_page_pdf();
    assert!(bytes.starts_with(b"%PDF-1.4"));
    assert!(count(&bytes, b"/Count 2") > 0);
    assert_eq!(count(&bytes, b"/Subtype /Image"), 2);
    assert!(count(&bytes, b"startxref") > 0);
    assert!(bytes.ends_with(b"%%EOF\n"));
}

#[test]
fn document_matches_reference_layout() {
    let (bytes, images) = two_page_pdf();
    assert_eq!(bytes, reference_pdf(W, H, 1280, 720, &images));
    let empty = document(1920, 1080, 1280, 720, &vec![]);
    assert_eq!(empty, reference_pdf(1920, 1080, 1280, 720, &[]));
    let big: Vec<Vec<u8>> = (0..5).map(|i| vec![i as u8; 300 * i]).collect();
    assert_eq!(document(7, 3, 99, 10, &big), reference_pdf(7, 3, 99, 10, &big));
}

#[test]
fn document_image_stream_decodes_to_frame() {
    let (bytes, _) = two_page_pdf();
    let dict = find(&bytes, b"/Subtype /Image", 0).expect("image dict");
    let lpos = find(&bytes, b"/Length ", dict).expect("/Length in image dict");
    let len = parse_usize_at(&bytes, lpos + b"/Length ".len());
    let s = find(&bytes, b"stream\n", dict).expect("stream after image dict");
    let data = &bytes[s + b"stream\n".len()..s + b"stream\n".len() + len];

    let mut out = Vec::new();
    ZlibDecoder::new(data).read_to_end(&mut out).expect("zlib decode");
    assert_eq!(out.len(), (W * H * 3) as usize);
    assert_eq!(out, frame_to_rgb(&frame(0x101010)));
    let white = out.iter().filter(|&&b| b == 0xFF).count();
    assert!(white * 2 > out.len());
    assert!(out.iter().any(|&b| b < 0x40));
}

#[test]
fn document_xref_offsets_point_at_objects() {
    let (bytes, _) = two_page_pdf();

    /* follow startxref to the table instead of scanning for "xref" */
    let sx = find(&bytes, b"startxref\n", 0).expect("startxref");
    let xref_off = parse_usize_at(&bytes, sx + b"startxref\n".len());
    assert!(bytes[xref_off..].starts_with(b"xref\n"));

    /* subsection header "0 N\n", then N fixed 20-byte entries */
    let mut p = xref_off + b"xref\n".len();
    assert_eq!(bytes[p], b'0');
    p += 2;
    let total = parse_usize_at(&bytes, p);
    while bytes[p] != b'\n' {
        p += 1;
    }
    p += 1;

    let mut in_use = 0;
    for k in 0..total {
        let entry = &bytes[p..p + 20];
        if entry[17] == b'n' {
            let off = parse_usize_at(entry, 0);
            let label = format!("{k} 0 obj");
            assert!(bytes[off..].starts_with(label.as_bytes()), "offset {off} mislabeled");
            in_use += 1;
        }
        p += 20;
    }
    /* catalog + pages + 3 objects per slide */
    assert_eq!(in_use, 8);
}

#[test]
fn frame_to_rgb_splits_channels() {
    assert_eq!(frame_to_rgb(&[0x123456, 0xFF000000, 0x00ABCDEF]), vec![0x12, 0x34, 0x56, 0, 0, 0, 0xAB, 0xCD, 0xEF]);
    assert!(frame_to_rgb(&[]).is_empty());
}

#[test]
fn page_image_is_zlib_of_rgb() {
    let f = frame(0x336699);
    let z = page_image(&f);
    let mut enc = flate2::write::ZlibEncoder::new(Vec::new(), flate2::Compression::default());
    enc.write_all(&frame_to_rgb(&f)).unwrap();
    assert_eq!(z, enc.finish().unwrap());
    assert_ne!(z, frame_to_rgb(&f));
}
