use generate_receipt::document::model::{Alignment, DocumentElement, SizeMode};
use generate_receipt::render::escpos::{
    align_code, format_row, raster_bytes_from_gray, render, size_code, GrayBitmap,
};
use generate_receipt::render::qr::qr_bytes;

fn text(content: &str, align: Alignment, bold: bool, size: SizeMode, underline: bool) -> DocumentElement {
    DocumentElement::Text { content: content.to_string(), align, bold, size, underline }
}

#[test]
fn codes() {
    assert_eq!(align_code(&Alignment::Left), 0);
    assert_eq!(align_code(&Alignment::Center), 1);
    assert_eq!(align_code(&Alignment::Right), 2);
    assert_eq!(size_code(&SizeMode::Normal), 0x00);
    assert_eq!(size_code(&SizeMode::Double), 0x11);
}

#[test]
fn rows_fill_the_width() {
    assert_eq!(format_row("Coffee", "3,500", 20), "Coffee.........3,500");
    assert_eq!(format_row("Coffee", "3,500", 20).chars().count(), 20);
    assert_eq!(format_row("A very long item name", "12,000", 16), "A very lon12,000");
    assert_eq!(format_row("Tea", "x", 4), "Teax");
    assert_eq!(format_row("Tea", "12345", 5), "12345");
    assert_eq!(format_row("Tea", "123456", 5), "123456");
    assert_eq!(format_row("아메리카노", "4,500", 12), "아메리카노..4,500");
}

#[test]
fn raster_packs_dark_pixels_msb_first() {
    // 9 x 2 image: row 0 = dark at x=0 and x=8; row 1 = dark at x=1 (value 127 is dark, 128 is not).
    let mut pixels = vec![255u8; 18];
    pixels[0] = 0;
    pixels[8] = 10;
    pixels[9 + 1] = 127;
    pixels[9 + 2] = 128;
    let img = GrayBitmap { width: 9, height: 2, pixels };
    let out = raster_bytes_from_gray(&img);
    assert_eq!(out, vec![0x1D, 0x76, 0x30, 0x00, 2, 0, 2, 0, 0x80, 0x80, 0x40, 0x00]);
}

#[test]
fn raster_of_empty_image() {
    let img = GrayBitmap { width: 0, height: 0, pixels: Vec::new() };
    assert_eq!(raster_bytes_from_gray(&img), vec![0x1D, 0x76, 0x30, 0x00, 0, 0, 0, 0]);
}

#[test]
fn render_text_styles_only_on_change() {
    let doc = vec![
        text("Hi", Alignment::Left, false, SizeMode::Normal, false),
        text("Yo", Alignment::Left, false, SizeMode::Normal, false),
        text("Big", Alignment::Right, true, SizeMode::Double, true),
        text("C", Alignment::Center, true, SizeMode::Double, true),
    ];
    let r = render(&doc, 32, 2, &[]);
    let mut expected = vec![0x1B, 0x40];
    expected.extend_from_slice(&[0x1B, 0x61, 0, 0x1B, 0x45, 0, 0x1D, 0x21, 0x00, 0x1B, 0x2D, 0]);
    expected.extend_from_slice(b"  Hi\n");
    expected.extend_from_slice(b"  Yo\n");
    expected.extend_from_slice(&[0x1B, 0x61, 2, 0x1B, 0x45, 1, 0x1D, 0x21, 0x11, 0x1B, 0x2D, 1]);
    expected.extend_from_slice(b"Big  \n");
    expected.extend_from_slice(&[0x1B, 0x61, 1]);
    expected.extend_from_slice(b"C\n");
    assert_eq!(r.bytes, expected);
    assert!(r.failed_qr.is_empty());
}

#[test]
fn render_divider_row_blank_cut_align_image() {
    let doc = vec![
        DocumentElement::Align(Alignment::Right),
        DocumentElement::Align(Alignment::Right),
        DocumentElement::Divider,
        DocumentElement::Row { left: "Tea".to_string(), right: "5".to_string(), bold: true },
        DocumentElement::Blank,
        DocumentElement::Image("a.png".to_string()),
        DocumentElement::Image("missing.png".to_string()),
        DocumentElement::Cut,
    ];
    let images = vec![("a.png".to_string(), vec![9u8, 8, 7])];
    let r = render(&doc, 10, 1, &images);
    let mut expected = vec![0x1B, 0x40];
    expected.extend_from_slice(&[0x1B, 0x61, 2]);
    expected.extend_from_slice(&[0x1B, 0x61, 1]);
    expected.extend_from_slice(b"--------\n");
    expected.extend_from_slice(&[0x1B, 0x61, 0, 0x1B, 0x45, 1]);
    expected.extend_from_slice(b" Tea....5\n");
    expected.extend_from_slice(b" \n");
    expected.extend_from_slice(&[9, 8, 7]);
    expected.extend_from_slice(&[0x1D, 0x56, 0x01]);
    assert_eq!(r.bytes, expected);
}

#[test]
fn render_divider_when_margins_exceed_width() {
    let r = render(&vec![DocumentElement::Divider], 4, 3, &[]);
    assert_eq!(r.bytes, vec![0x1B, 0x40, 0x1B, 0x61, 1, b'\n']);
}

#[test]
fn empty_document_is_just_initialisation() {
    let r = render(&Vec::new(), 48, 2, &[]);
    assert_eq!(r.bytes, vec![0x1B, 0x40]);
}

#[test]
fn qr_matches_the_encoder() {
    let content = "https://bluebean.example.com/survey";
    let bytes = qr_bytes(content).unwrap();
    let code = qrcode::QrCode::new(content.as_bytes()).unwrap();
    let side = code.width();
    let colors = code.to_colors();
    let n = (side + 4) * 6;
    let wb = (n + 7) / 8;
    assert_eq!(&bytes[0..4], &[0x1D, 0x76, 0x30, 0x00]);
    assert_eq!(bytes[4] as usize + 256 * bytes[5] as usize, wb);
    assert_eq!(bytes[6] as usize + 256 * bytes[7] as usize, n);
    assert_eq!(bytes.len(), 8 + wb * n);
    let bitmap = &bytes[8..];
    for y in 0..n {
        for x in 0..n {
            let mx = x / 6;
            let my = y / 6;
            let dark = mx >= 2 && my >= 2 && mx - 2 < side && my - 2 < side
                && colors[(my - 2) * side + (mx - 2)] == qrcode::Color::Dark;
            let bit = bitmap[y * wb + x / 8] & (0x80 >> (x % 8)) != 0;
            assert_eq!(bit, dark, "pixel ({}, {})", x, y);
        }
    }
    // Some module is dark and some is light.
    assert!(bitmap.iter().any(|b| *b != 0));
}

#[test]
fn qr_too_long_fails_and_is_reported() {
    let content = "x".repeat(5000);
    let err = qr_bytes(&content).unwrap_err();
    assert_eq!(err.content, content);
    assert_eq!(err.message(), format!("failed to encode QR content: {}", content));
    let doc = vec![DocumentElement::Qr(content.clone()), DocumentElement::Cut];
    let r = render(&doc, 32, 2, &[]);
    assert_eq!(r.bytes, vec![0x1B, 0x40, 0x1D, 0x56, 0x01]);
    assert_eq!(r.failed_qr, vec![content]);
}

#[test]
fn qr_in_document_is_rendered_inline() {
    let doc = vec![DocumentElement::Qr("hello".to_string())];
    let r = render(&doc, 32, 2, &[]);
    let q = qr_bytes("hello").unwrap();
    assert_eq!(&r.bytes[2..], &q[..]);
}
