//! ESC/POS byte stream rendering of a receipt document.
use vstd::prelude::*;
use vstd::utf8::encode_utf8;
use super::qr::{qr_bytes, qr_raster_spec};
use crate::document::model::{doc_model, Alignment, DocumentElement, ElementModel, ReceiptDocument, SizeMode};
use crate::text::{from_chars, same_chars, to_chars};

verus! {

/// An 8-bit grayscale image, row-major (`pixels[y * width + x]`).
pub struct GrayBitmap {
    pub width: u32,
    pub height: u32,
    pub pixels: Vec<u8>,
}

impl GrayBitmap {
    /// The pixel buffer holds exactly `width * height` pixels.
    pub open spec fn wf(&self) -> bool {
        self.pixels@.len() == self.width * self.height
    }
}

/// Bytes per raster row: the width in pixels rounded up to whole bytes.
pub open spec fn row_bytes(width: int) -> int {
    (width + 7) / 8
}

/// The raster bit for pixel column `8 * b + j` of row `y`: set (most
/// significant bit first) when that pixel exists and is darker than mid-gray.
pub open spec fn raster_bit(pixels: Seq<u8>, width: int, y: int, b: int, j: int) -> u8 {
    let x = 8 * b + j;
    if x < width && pixels[y * width + x] < 128 {
        (0x80u8 >> (j as u8))
    } else {
        0u8
    }
}

/// Byte `b` of raster row `y`, from its first `n` bits.
pub open spec fn raster_byte(pixels: Seq<u8>, width: int, y: int, b: int, n: nat) -> u8
    decreases n,
{
    if n == 0 {
        0u8
    } else {
        raster_byte(pixels, width, y, b, (n - 1) as nat) | raster_bit(pixels, width, y, b, n - 1)
    }
}

/// Raster row `y`.
pub open spec fn raster_row(pixels: Seq<u8>, width: int, y: int) -> Seq<u8> {
    Seq::new(row_bytes(width) as nat, |b: int| raster_byte(pixels, width, y, b, 8))
}

/// The first `h` raster rows, one after the other.
pub open spec fn raster_rows(pixels: Seq<u8>, width: int, h: nat) -> Seq<u8>
    decreases h,
{
    if h == 0 {
        Seq::empty()
    } else {
        raster_rows(pixels, width, (h - 1) as nat) + raster_row(pixels, width, h - 1)
    }
}

/// The two little-endian bytes of `v` truncated to 16 bits.
pub open spec fn le16(v: int) -> Seq<u8> {
    seq![(v % 256) as u8, ((v / 256) % 256) as u8]
}

/// The `GS v 0` raster image command for a grayscale image.
pub open spec fn raster_spec(width: int, height: nat, pixels: Seq<u8>) -> Seq<u8> {
    seq![0x1Du8, 0x76u8, 0x30u8, 0x00u8] + le16(row_bytes(width)) + le16(height as int)
        + raster_rows(pixels, width, height)
}

/// The sizes in a raster command stay within what its arithmetic can hold.
pub open spec fn raster_fits(img: &GrayBitmap) -> bool {
    &&& img.width + 7 <= u32::MAX
    &&& img.height > 0 ==> row_bytes(img.width as int) <= 0xFFFF
    &&& row_bytes(img.width as int) * img.height <= u32::MAX
}

/// Appends the bytes of `src` to `dst`.
pub fn append_bytes(dst: &mut Vec<u8>, src: &[u8])
    ensures
        final(dst)@ == old(dst)@ + src@,
{
    let mut i: usize = 0;
    while i < src.len()
        invariant
            i <= src@.len(),
            dst@ == old(dst)@ + src@.take(i as int),
        decreases src@.len() - i,
    {
        dst.push(src[i]);
        i += 1;
        assert(src@.take(i as int) == src@.take(i - 1).push(src@[i - 1]));
    }
    assert(src@.take(src@.len() as int) == src@);
}

/// Appends `n` copies of `byte` to `dst`.
pub fn append_repeat(dst: &mut Vec<u8>, byte: u8, n: usize)
    ensures
        final(dst)@ == old(dst)@ + Seq::new(n as nat, |i: int| byte),
{
    let mut i: usize = 0;
    while i < n
        invariant
            i <= n,
            dst@ == old(dst)@ + Seq::new(i as nat, |k: int| byte),
        decreases n - i,
    {
        dst.push(byte);
        i += 1;
        assert(Seq::new(i as nat, |k: int| byte) == Seq::new((i - 1) as nat, |k: int| byte).push(
            byte,
        ));
    }
}

proof fn lemma_pixel_index(y: int, x: int, w: int, h: int)
    requires
        0 <= y < h,
        0 <= x < w,
    ensures
        0 <= y * w + x < w * h,
{
    assert(y * w + x < w * h) by (nonlinear_arith)
        requires
            0 <= y < h,
            0 <= x < w,
    ;
    assert(0 <= y * w) by (nonlinear_arith)
        requires
            0 <= y,
            0 <= x < w,
    ;
}

/// Packs a grayscale image into a GS v 0 raster image command (1-bit
/// monochrome, threshold at mid-gray). Shared by logo images and QR codes so
/// both are drawn as actual pixels rather than printer-specific command bytes.
pub fn raster_bytes_from_gray(img: &GrayBitmap) -> (out: Vec<u8>)
    requires
        img.wf(),
        raster_fits(img),
    ensures
        out@ == raster_spec(img.width as int, img.height as nat, img.pixels@),
{
    let w = img.width;
    let h = img.height;
    let width_bytes: u32 = (w + 7) / 8;
    let ghost px = img.pixels@;
    let plen = img.pixels.len();
    let mut bitmap: Vec<u8> = Vec::new();
    let mut y: u32 = 0;
    while y < h
        invariant
            w == img.width,
            h == img.height,
            px == img.pixels@,
            px.len() == w * h,
            plen == px.len(),
            width_bytes == row_bytes(w as int),
            y <= h,
            bitmap@ == raster_rows(px, w as int, y as nat),
        decreases h - y,
    {
        let ghost prev = bitmap@;
        let mut b: u32 = 0;
        while b < width_bytes
            invariant
                w == img.width,
                h == img.height,
                px == img.pixels@,
                px.len() == w * h,
                plen == px.len(),
                width_bytes == row_bytes(w as int),
                y < h,
                b <= width_bytes,
                bitmap@ == prev + raster_row(px, w as int, y as int).take(b as int),
            decreases width_bytes - b,
        {
            let mut byte: u8 = 0;
            let mut j: u32 = 0;
            while j < 8
                invariant
                    w == img.width,
                    h == img.height,
                    px == img.pixels@,
                    px.len() == w * h,
                    plen == px.len(),
                    width_bytes == row_bytes(w as int),
                    y < h,
                    b < width_bytes,
                    j <= 8,
                    byte == raster_byte(px, w as int, y as int, b as int, j as nat),
                decreases 8 - j,
            {
                assert(8 * b + j <= 8 * width_bytes + 8);
                let x: u32 = 8 * b + j;
                let mut bit: u8 = 0;
                if x < w {
                    proof {
                        lemma_pixel_index(y as int, x as int, w as int, h as int);
                        assert(0 <= y * w <= y * w + x);
                    }
                    let idx: usize = (y as usize) * (w as usize) + (x as usize);
                    assert(idx == y * w + x);
                    if img.pixels[idx] < 128 {
                        bit = 0x80u8 >> (j as u8);
                    }
                }
                byte = byte | bit;
                j += 1;
            }
            bitmap.push(byte);
            proof {
                let row = raster_row(px, w as int, y as int);
                assert(row.take(b + 1) == row.take(b as int).push(row[b as int]));
            }
            b += 1;
        }
        proof {
            let row = raster_row(px, w as int, y as int);
            assert(row.take(width_bytes as int) == row);
        }
        y += 1;
    }
    let mut out: Vec<u8> = Vec::new();
    out.push(0x1D);
    out.push(0x76);
    out.push(0x30);
    out.push(0x00);
    out.push((width_bytes % 256) as u8);
    out.push(((width_bytes / 256) % 256) as u8);
    out.push((h % 256) as u8);
    out.push(((h / 256) % 256) as u8);
    append_bytes(&mut out, bitmap.as_slice());
    assert(out@ == raster_spec(w as int, h as nat, px));
    out
}


/// The ESC a argument for an alignment.
pub open spec fn align_code_spec(a: Alignment) -> u8 {
    match a {
        Alignment::Left => 0,
        Alignment::Center => 1,
        Alignment::Right => 2,
    }
}

/// The GS ! argument for a character size.
pub open spec fn size_code_spec(s: SizeMode) -> u8 {
    match s {
        SizeMode::Normal => 0x00,
        SizeMode::Double => 0x11,
    }
}

/// The ESC a argument for an alignment.
pub fn align_code(a: &Alignment) -> (c: u8)
    ensures
        c == align_code_spec(*a),
{
    match a {
        Alignment::Left => 0,
        Alignment::Center => 1,
        Alignment::Right => 2,
    }
}

/// The GS ! argument for a character size.
pub fn size_code(s: &SizeMode) -> (c: u8)
    ensures
        c == size_code_spec(*s),
{
    match s {
        SizeMode::Normal => 0x00,
        SizeMode::Double => 0x11,
    }
}

/// A two-column row `width` characters wide: `left`, a run of '.' dot
/// leaders, then `right`. When both columns do not fit, `left` is cut short
/// (no leader) so that `right` is never cut; when `right` alone fills the
/// width it is all there is.
pub open spec fn format_row_spec(left: Seq<char>, right: Seq<char>, width: int) -> Seq<char> {
    if right.len() >= width {
        right
    } else if left.len() + right.len() >= width {
        left.take(width - right.len()) + right
    } else {
        left + Seq::new((width - left.len() - right.len()) as nat, |i: int| '.') + right
    }
}

/// Lays out a two-column row: `left`, a run of '.' dot-leaders, then
/// `right`, filling exactly `width` characters. If the two columns alone
/// don't fit in `width`, `left` is truncated (no leader) so `right`
/// (usually a price) is never cut off.
pub fn format_row(left: &str, right: &str, width: usize) -> (r: String)
    ensures
        r@ == format_row_spec(left@, right@, width as int),
{
    let lc = to_chars(left);
    let rc = to_chars(right);
    let left_len = lc.len();
    let right_len = rc.len();
    if right_len >= width {
        return from_chars(rc.as_slice());
    }
    let avail = width - right_len;
    if left_len >= avail {
        let mut out = crate::text::slice_chars(lc.as_slice(), 0, avail);
        crate::text::append_chars(&mut out, rc.as_slice());
        return from_chars(out.as_slice());
    }
    let filler_len = avail - left_len;
    let mut out = crate::text::slice_chars(lc.as_slice(), 0, left_len);
    assert(out@ == lc@);
    let mut i: usize = 0;
    while i < filler_len
        invariant
            i <= filler_len,
            out@ == lc@ + Seq::new(i as nat, |k: int| '.'),
        decreases filler_len - i,
    {
        out.push('.');
        i += 1;
        assert(Seq::new(i as nat, |k: int| '.') == Seq::new((i - 1) as nat, |k: int| '.').push('.'));
    }
    crate::text::append_chars(&mut out, rc.as_slice());
    from_chars(out.as_slice())
}

/// What the printer was last told: `None` until the first command of a kind.
#[derive(Debug, Clone, Copy, PartialEq, Eq)]
pub struct PrinterState {
    pub align: Option<u8>,
    pub bold: Option<bool>,
    pub size: Option<u8>,
    pub underline: Option<bool>,
}

/// Nothing sent yet.
pub open spec fn initial_state() -> PrinterState {
    PrinterState { align: None, bold: None, size: None, underline: None }
}

/// The byte for a flag.
pub open spec fn flag_byte(b: bool) -> u8 {
    if b {
        1
    } else {
        0
    }
}

/// `ESC a n` unless alignment `n` is already set.
pub open spec fn align_cmd(st: PrinterState, n: u8) -> (Seq<u8>, PrinterState) {
    if st.align == Some(n) {
        (Seq::empty(), st)
    } else {
        (seq![0x1Bu8, 0x61u8, n], PrinterState { align: Some(n), ..st })
    }
}

/// `ESC E n` unless emphasis `b` is already set.
pub open spec fn bold_cmd(st: PrinterState, b: bool) -> (Seq<u8>, PrinterState) {
    if st.bold == Some(b) {
        (Seq::empty(), st)
    } else {
        (seq![0x1Bu8, 0x45u8, flag_byte(b)], PrinterState { bold: Some(b), ..st })
    }
}

/// `GS ! n` unless size `n` is already set.
pub open spec fn size_cmd(st: PrinterState, n: u8) -> (Seq<u8>, PrinterState) {
    if st.size == Some(n) {
        (Seq::empty(), st)
    } else {
        (seq![0x1Du8, 0x21u8, n], PrinterState { size: Some(n), ..st })
    }
}

/// `ESC - n` unless underline `u` is already set.
pub open spec fn underline_cmd(st: PrinterState, u: bool) -> (Seq<u8>, PrinterState) {
    if st.underline == Some(u) {
        (Seq::empty(), st)
    } else {
        (seq![0x1Bu8, 0x2Du8, flag_byte(u)], PrinterState { underline: Some(u), ..st })
    }
}

/// `n` space bytes.
pub open spec fn spaces(n: nat) -> Seq<u8> {
    Seq::new(n, |i: int| 0x20u8)
}

/// The printable width: `cpl` less both margins, or zero.
pub open spec fn printable_width(cpl: nat, margin: nat) -> nat {
    if cpl >= 2 * margin {
        (cpl - 2 * margin) as nat
    } else {
        0
    }
}

/// The raster bytes stored for an image path: the first entry for it.
pub open spec fn image_lookup(images: Seq<(Seq<char>, Seq<u8>)>, path: Seq<char>) -> Option<Seq<u8>>
    decreases images.len(),
{
    if images.len() == 0 {
        None
    } else if images[0].0 == path {
        Some(images[0].1)
    } else {
        image_lookup(images.drop_first(), path)
    }
}

/// The model of an image table.
pub open spec fn images_model(images: Seq<(String, Vec<u8>)>) -> Seq<(Seq<char>, Seq<u8>)> {
    images.map_values(|p: (String, Vec<u8>)| (p.0@, p.1@))
}

/// The bytes of a line of text with its style commands, and the state after.
pub open spec fn text_spec(
    content: Seq<char>,
    align: Alignment,
    bold: bool,
    size: SizeMode,
    underline: bool,
    margin: nat,
    st: PrinterState,
) -> (Seq<u8>, PrinterState) {
    let (c1, s1) = align_cmd(st, align_code_spec(align));
    let (c2, s2) = bold_cmd(s1, bold);
    let (c3, s3) = size_cmd(s2, size_code_spec(size));
    let (c4, s4) = underline_cmd(s3, underline);
    (c1 + c2 + c3 + c4 + padded_spec(content, align, margin) + seq![0x0Au8], s4)
}

/// The bytes of a two-column row (always left-aligned), and the state after.
pub open spec fn row_spec(
    left: Seq<char>,
    right: Seq<char>,
    bold: bool,
    cpl: nat,
    margin: nat,
    st: PrinterState,
) -> (Seq<u8>, PrinterState) {
    let (c1, s1) = align_cmd(st, 0u8);
    let (c2, s2) = bold_cmd(s1, bold);
    let line = format_row_spec(left, right, printable_width(cpl, margin) as int);
    (c1 + c2 + spaces(margin) + encode_utf8(line) + seq![0x0Au8], s2)
}

/// The bytes one element prints, the QR contents it could not encode, and
/// the printer state after it.
pub open spec fn element_spec(
    e: ElementModel,
    cpl: nat,
    margin: nat,
    images: Seq<(Seq<char>, Seq<u8>)>,
    st: PrinterState,
) -> (Seq<u8>, Seq<Seq<char>>, PrinterState) {
    match e {
        ElementModel::Text { content, align, bold, size, underline } => {
            let (b, s1) = text_spec(content, align, bold, size, underline, margin, st);
            (b, Seq::empty(), s1)
        },
        ElementModel::Divider => (
            seq![0x1Bu8, 0x61u8, 1u8] + Seq::new(printable_width(cpl, margin), |i: int| 0x2Du8)
                + seq![0x0Au8],
            Seq::empty(),
            PrinterState { align: Some(1u8), ..st },
        ),
        ElementModel::Blank => (seq![0x20u8, 0x0Au8], Seq::empty(), st),
        ElementModel::Image(path) => match image_lookup(images, path) {
            Some(bytes) => (bytes, Seq::empty(), st),
            None => (Seq::empty(), Seq::empty(), st),
        },
        ElementModel::Qr(content) => match qr_raster_spec(content) {
            Some(bytes) => (bytes, Seq::empty(), st),
            None => (Seq::empty(), seq![content], st),
        },
        ElementModel::Row { left, right, bold } => {
            let (b, s1) = row_spec(left, right, bold, cpl, margin, st);
            (b, Seq::empty(), s1)
        },
        ElementModel::Cut => (seq![0x1Du8, 0x56u8, 0x01u8], Seq::empty(), st),
        ElementModel::Align(a) => {
            let (c, s1) = align_cmd(st, align_code_spec(a));
            (c, Seq::empty(), s1)
        },
    }
}

/// The bytes and QR failures of the elements `doc`, in order, from state `st`.
pub open spec fn elements_spec(
    doc: Seq<ElementModel>,
    cpl: nat,
    margin: nat,
    images: Seq<(Seq<char>, Seq<u8>)>,
    st: PrinterState,
) -> (Seq<u8>, Seq<Seq<char>>)
    decreases doc.len(),
{
    if doc.len() == 0 {
        (Seq::empty(), Seq::empty())
    } else {
        let (b, w, s1) = element_spec(doc[0], cpl, margin, images, st);
        let (rb, rw) = elements_spec(doc.drop_first(), cpl, margin, images, s1);
        (b + rb, w + rw)
    }
}

/// The whole ESC/POS stream for a document: `ESC @` then every element.
pub open spec fn render_spec(
    doc: Seq<ElementModel>,
    cpl: nat,
    margin: nat,
    images: Seq<(Seq<char>, Seq<u8>)>,
) -> (Seq<u8>, Seq<Seq<char>>) {
    let (b, w) = elements_spec(doc, cpl, margin, images, initial_state());
    (seq![0x1Bu8, 0x40u8] + b, w)
}

/// Some element of the document is laid out against the printable width.
pub open spec fn uses_width(doc: Seq<ElementModel>) -> bool {
    exists|i: int|
        0 <= i < doc.len() && (#[trigger] doc[i] is Divider || doc[i] is Row)
}

/// A rendered receipt: the bytes to print and the contents of the QR codes
/// that could not be encoded (and were left out).
pub struct Rendered {
    pub bytes: Vec<u8>,
    pub failed_qr: Vec<String>,
}

fn set_align(buf: &mut Vec<u8>, st: &mut PrinterState, n: u8)
    ensures
        final(buf)@ == old(buf)@ + align_cmd(*old(st), n).0,
        *final(st) == align_cmd(*old(st), n).1,
{
    if st.align != Some(n) {
        buf.push(0x1B);
        buf.push(0x61);
        buf.push(n);
        st.align = Some(n);
    }
}

fn set_bold(buf: &mut Vec<u8>, st: &mut PrinterState, b: bool)
    ensures
        final(buf)@ == old(buf)@ + bold_cmd(*old(st), b).0,
        *final(st) == bold_cmd(*old(st), b).1,
{
    if st.bold != Some(b) {
        buf.push(0x1B);
        buf.push(0x45);
        buf.push(if b { 1 } else { 0 });
        st.bold = Some(b);
    }
}

fn set_size(buf: &mut Vec<u8>, st: &mut PrinterState, n: u8)
    ensures
        final(buf)@ == old(buf)@ + size_cmd(*old(st), n).0,
        *final(st) == size_cmd(*old(st), n).1,
{
    if st.size != Some(n) {
        buf.push(0x1D);
        buf.push(0x21);
        buf.push(n);
        st.size = Some(n);
    }
}

fn set_underline(buf: &mut Vec<u8>, st: &mut PrinterState, u: bool)
    ensures
        final(buf)@ == old(buf)@ + underline_cmd(*old(st), u).0,
        *final(st) == underline_cmd(*old(st), u).1,
{
    if st.underline != Some(u) {
        buf.push(0x1B);
        buf.push(0x2D);
        buf.push(if u { 1 } else { 0 });
        st.underline = Some(u);
    }
}

fn find_image<'a>(images: &'a [(String, Vec<u8>)], path: &String) -> (r: Option<&'a Vec<u8>>)
    ensures
        match r {
            Some(b) => image_lookup(images_model(images@), path@) == Some(b@),
            None => image_lookup(images_model(images@), path@) is None,
        },
{
    let ghost m = images_model(images@);
    let p = to_chars(path.as_str());
    let mut i: usize = 0;
    assert(m.skip(0) == m);
    while i < images.len()
        invariant
            m == images_model(images@),
            p@ == path@,
            i <= images@.len(),
            image_lookup(m, path@) == image_lookup(m.skip(i as int), path@),
        decreases images@.len() - i,
    {
        let k = to_chars(images[i].0.as_str());
        assert(m[i as int] == (images@[i as int].0@, images@[i as int].1@));
        assert(m.skip(i as int)[0] == m[i as int]);
        assert(m.skip(i as int).len() > 0);
        assert(k@ == m[i as int].0);
        if same_chars(k.as_slice(), p.as_slice()) {
            assert(m.skip(i as int)[0].0 == path@);
            assert(image_lookup(m.skip(i as int), path@) == Some(m[i as int].1));
            return Some(&images[i].1);
        }
        assert(m.skip(i as int).drop_first() == m.skip(i + 1));
        i += 1;
    }
    None
}

/// Prints one element: appends its bytes, records a QR content that could
/// not be encoded, and updates the printer state.
fn render_element(
    el: &DocumentElement,
    cpl: usize,
    margin: usize,
    images: &[(String, Vec<u8>)],
    st: &mut PrinterState,
    buf: &mut Vec<u8>,
    failed: &mut Vec<String>,
)
    requires
        (el@ is Divider || el@ is Row) ==> 2 * margin <= usize::MAX,
    ensures
        ({
            let step = element_spec(el@, cpl as nat, margin as nat, images_model(images@), *old(st));
            &&& final(buf)@ == old(buf)@ + step.0
            &&& final(failed).deep_view() == old(failed).deep_view() + step.1
            &&& *final(st) == step.2
        }),
{
    match el {
        DocumentElement::Text { content, align, bold, size, underline } => {
            render_text(content, *align, *bold, *size, *underline, margin, st, buf);
        },
        DocumentElement::Divider => {
            let doubled = margin * 2;
            let width = if cpl >= doubled {
                cpl - doubled
            } else {
                0
            };
            buf.push(0x1B);
            buf.push(0x61);
            buf.push(1);
            st.align = Some(1);
            append_repeat(buf, 0x2D, width);
            buf.push(0x0A);
        },
        DocumentElement::Blank => {
            buf.push(0x20);
            buf.push(0x0A);
        },
        DocumentElement::Image(path) => {
            match find_image(images, path) {
                Some(bytes) => append_bytes(buf, bytes.as_slice()),
                None => {
                    assert(buf@ == buf@ + Seq::<u8>::empty());
                },
            }
            assert(failed.deep_view() == failed.deep_view() + Seq::<Seq<char>>::empty());
        },
        DocumentElement::Qr(content) => {
            match qr_bytes(content.as_str()) {
                Ok(bytes) => {
                    append_bytes(buf, bytes.as_slice());
                    assert(failed.deep_view() == failed.deep_view() + Seq::<Seq<char>>::empty());
                },
                Err(e) => {
                    let ghost before = failed.deep_view();
                    failed.push(e.content);
                    assert(failed.deep_view() =~= before + seq![content@]);
                    assert(buf@ == buf@ + Seq::<u8>::empty());
                },
            }
        },
        DocumentElement::Row { left, right, bold } => {
            render_row(left, right, *bold, cpl, margin, st, buf);
        },
        DocumentElement::Cut => {
            buf.push(0x1D);
            buf.push(0x56);
            buf.push(0x01);
        },
        DocumentElement::Align(a) => {
            set_align(buf, st, align_code(a));
        },
    }
    proof {
        let step = element_spec(el@, cpl as nat, margin as nat, images_model(images@), *old(st));
        if !(el@ is Qr) {
            assert(old(failed).deep_view() + step.1 == old(failed).deep_view());
        }
    }
}

fn render_text(
    content: &String,
    align: Alignment,
    bold: bool,
    size: SizeMode,
    underline: bool,
    margin: usize,
    st: &mut PrinterState,
    buf: &mut Vec<u8>,
)
    ensures
        final(buf)@ == old(buf)@ + text_spec(content@, align, bold, size, underline, margin as nat, *old(st)).0,
        *final(st) == text_spec(content@, align, bold, size, underline, margin as nat, *old(st)).1,
{
    let ghost b0 = buf@;
    let ghost s0 = *st;
    let mut cmds: Vec<u8> = Vec::new();
    set_align(&mut cmds, st, align_code(&align));
    let ghost k1 = cmds@;
    set_bold(&mut cmds, st, bold);
    let ghost k2 = cmds@;
    set_size(&mut cmds, st, size_code(&size));
    let ghost k3 = cmds@;
    set_underline(&mut cmds, st, underline);
    let line = padded_text(content, align, margin);
    append_bytes(buf, cmds.as_slice());
    append_bytes(buf, line.as_slice());
    buf.push(0x0A);
    proof {
        let (c1, s1) = align_cmd(s0, align_code_spec(align));
        let (c2, s2) = bold_cmd(s1, bold);
        let (c3, s3) = size_cmd(s2, size_code_spec(size));
        let (c4, s4) = underline_cmd(s3, underline);
        assert(k1 == c1);
        assert(k2 == c1 + c2);
        assert(k3 == c1 + c2 + c3);
        assert(cmds@ == c1 + c2 + c3 + c4);
        assert(*st == s4);
        let t = text_spec(content@, align, bold, size, underline, margin as nat, s0);
        assert(t.0 == c1 + c2 + c3 + c4 + line@ + seq![0x0Au8]);
        assert(buf@ == b0 + t.0);
    }
}

/// The text bytes of a line padded for its alignment.
pub open spec fn padded_spec(content: Seq<char>, align: Alignment, margin: nat) -> Seq<u8> {
    let text = encode_utf8(content);
    match align {
        Alignment::Left => spaces(margin) + text,
        Alignment::Right => text + spaces(margin),
        Alignment::Center => text,
    }
}

fn padded_text(content: &String, align: Alignment, margin: usize) -> (r: Vec<u8>)
    ensures
        r@ == padded_spec(content@, align, margin as nat),
{
    let bytes = content.as_str().as_bytes();
    let mut out: Vec<u8> = Vec::new();
    match align {
        Alignment::Left => {
            append_repeat(&mut out, 0x20, margin);
            append_bytes(&mut out, bytes);
        },
        Alignment::Right => {
            append_bytes(&mut out, bytes);
            append_repeat(&mut out, 0x20, margin);
        },
        Alignment::Center => {
            append_bytes(&mut out, bytes);
        },
    }
    out
}

fn render_row(
    left: &String,
    right: &String,
    bold: bool,
    cpl: usize,
    margin: usize,
    st: &mut PrinterState,
    buf: &mut Vec<u8>,
)
    requires
        2 * margin <= usize::MAX,
    ensures
        final(buf)@ == old(buf)@ + row_spec(left@, right@, bold, cpl as nat, margin as nat, *old(st)).0,
        *final(st) == row_spec(left@, right@, bold, cpl as nat, margin as nat, *old(st)).1,
{
    let ghost b0 = buf@;
    set_align(buf, st, 0);
    set_bold(buf, st, bold);
    let doubled = margin * 2;
    let width = if cpl >= doubled {
        cpl - doubled
    } else {
        0
    };
    let line = format_row(left.as_str(), right.as_str(), width);
    append_repeat(buf, 0x20, margin);
    append_bytes(buf, line.as_str().as_bytes());
    buf.push(0x0A);
    proof {
        let t = row_spec(left@, right@, bold, cpl as nat, margin as nat, *old(st));
        assert(buf@ == b0 + t.0);
    }
}

/// Renders a document to an ESC/POS byte stream for a paper `cpl` characters
/// wide with `margin` characters of margin on each side. Images are taken
/// from `images` (raster bytes by path; an image that is not there is left
/// out). Style commands are sent only when they change what the printer was
/// last told.
pub fn render(doc: &ReceiptDocument, cpl: usize, margin: usize, images: &[(String, Vec<u8>)]) -> (r:
    Rendered)
    requires
        uses_width(doc_model(doc@)) ==> 2 * margin <= usize::MAX,
    ensures
        (r.bytes@, r.failed_qr.deep_view()) == render_spec(
            doc_model(doc@),
            cpl as nat,
            margin as nat,
            images_model(images@),
        ),
{
    let ghost dm = doc_model(doc@);
    let ghost im = images_model(images@);
    let mut buf: Vec<u8> = Vec::new();
    buf.push(0x1B);
    buf.push(0x40);
    let mut failed: Vec<String> = Vec::new();
    let mut st = PrinterState { align: None, bold: None, size: None, underline: None };
    let ghost head = buf@;
    assert(dm.skip(0) == dm);
    let mut i: usize = 0;
    while i < doc.len()
        invariant
            dm == doc_model(doc@),
            dm.len() == doc@.len(),
            im == images_model(images@),
            uses_width(dm) ==> 2 * margin <= usize::MAX,
            i <= doc@.len(),
            head == seq![0x1Bu8, 0x40u8],
            ({
                let total = elements_spec(dm, cpl as nat, margin as nat, im, initial_state());
                let rest = elements_spec(dm.skip(i as int), cpl as nat, margin as nat, im, st);
                &&& head + total.0 == buf@ + rest.0
                &&& total.1 == failed.deep_view() + rest.1
            }),
        decreases doc@.len() - i,
    {
        let ghost b0 = buf@;
        let ghost f0 = failed.deep_view();
        let ghost s0 = st;
        let ghost sub = dm.skip(i as int);
        proof {
            assert(sub[0] == doc@[i as int]@);
            assert(sub.drop_first() == dm.skip(i + 1));
        }
        proof {
            assert(dm[i as int] == doc@[i as int]@);
            if doc@[i as int]@ is Divider || doc@[i as int]@ is Row {
                assert(uses_width(dm));
            }
        }
        render_element(&doc[i], cpl, margin, images, &mut st, &mut buf, &mut failed);
        proof {
            let step = element_spec(dm[i as int], cpl as nat, margin as nat, im, s0);
            let rest = elements_spec(dm.skip(i + 1), cpl as nat, margin as nat, im, st);
            assert(step.2 == st);
            assert(buf@ == b0 + step.0);
            assert(failed.deep_view() == f0 + step.1);
            assert(b0 + (step.0 + rest.0) == buf@ + rest.0);
            assert(f0 + (step.1 + rest.1) == failed.deep_view() + rest.1);
        }
        i += 1;
    }
    proof {
        assert(dm.skip(i as int).len() == 0);
        assert(buf@ + Seq::<u8>::empty() == buf@);
        assert(failed.deep_view() + Seq::<Seq<char>>::empty() == failed.deep_view());
    }
    Rendered { bytes: buf, failed_qr: failed }
}


/// A row is exactly `width` characters whenever `right` is shorter than the
/// width, and ends with all of `right`; `left` keeps its start, and is whole
/// when both columns fit, with `.` leaders filling the gap between them.
/// When `right` alone fills the width, it is the row.
pub proof fn lemma_format_row_layout(left: Seq<char>, right: Seq<char>, width: int)
    ensures
        right.len() < width ==> {
            let r = format_row_spec(left, right, width);
            &&& r.len() == width
            &&& r.skip(width - right.len()) == right
            &&& left.len() + right.len() < width ==> r.take(left.len() as int) == left
            &&& left.len() + right.len() < width ==> forall|i: int|
                left.len() <= i < width - right.len() ==> r[i] == '.'
            &&& left.len() + right.len() >= width ==> r.take(width - right.len()) == left.take(
                width - right.len(),
            )
        },
        right.len() >= width ==> format_row_spec(left, right, width) == right,
{
    let r = format_row_spec(left, right, width);
    if right.len() < width {
        if left.len() + right.len() >= width {
            assert(r.skip(width - right.len()) == right);
            assert(r.take(width - right.len()) == left.take(width - right.len()));
        } else {
            let dots = Seq::new((width - left.len() - right.len()) as nat, |i: int| '.');
            assert(r == left + dots + right);
            assert(r.skip(width - right.len()) == right);
            assert(r.take(left.len() as int) == left);
        }
    }
}

/// A raster command is the 8 header bytes followed by one bitmap byte per
/// 8 pixels of each row.
pub proof fn lemma_raster_length(width: int, height: nat, pixels: Seq<u8>)
    requires
        width >= 0,
    ensures
        raster_spec(width, height, pixels).len() == 8 + row_bytes(width) * height,
    decreases height,
{
    lemma_raster_rows_length(pixels, width, height);
}

proof fn lemma_raster_rows_length(pixels: Seq<u8>, width: int, h: nat)
    requires
        width >= 0,
    ensures
        raster_rows(pixels, width, h).len() == row_bytes(width) * h,
    decreases h,
{
    if h > 0 {
        lemma_raster_rows_length(pixels, width, (h - 1) as nat);
        assert(row_bytes(width) >= 0);
        assert(raster_row(pixels, width, h - 1).len() == row_bytes(width));
        assert(row_bytes(width) * h == row_bytes(width) * (h - 1) + row_bytes(width)) by (
        nonlinear_arith);
    } else {
        assert(row_bytes(width) * h == 0) by (nonlinear_arith)
            requires
                h == 0,
        ;
    }
}

/// Style commands are sent only on change: a line of text in the style the
/// printer already has is sent as its padded text and a line feed alone,
/// and the printer state stays as it was.
pub proof fn lemma_text_same_style_sends_no_commands(
    content: Seq<char>,
    align: Alignment,
    bold: bool,
    size: SizeMode,
    underline: bool,
    margin: nat,
    st: PrinterState,
)
    requires
        st.align == Some(align_code_spec(align)),
        st.bold == Some(bold),
        st.size == Some(size_code_spec(size)),
        st.underline == Some(underline),
    ensures
        text_spec(content, align, bold, size, underline, margin, st) == (
            padded_spec(content, align, margin) + seq![0x0Au8],
            st,
        ),
{
    let e = Seq::<u8>::empty();
    assert(e + e + e + e + padded_spec(content, align, margin) + seq![0x0Au8] == padded_spec(
        content,
        align,
        margin,
    ) + seq![0x0Au8]);
}

/// A row is always printed left-aligned, whatever alignment came before it:
/// it starts with `ESC a 0` unless the printer is already left-aligned, and
/// leaves the printer left-aligned.
pub proof fn lemma_row_left_aligned(
    left: Seq<char>,
    right: Seq<char>,
    bold: bool,
    cpl: nat,
    margin: nat,
    st: PrinterState,
)
    ensures
        row_spec(left, right, bold, cpl, margin, st).1.align == Some(0u8),
        st.align != Some(0u8) ==> row_spec(left, right, bold, cpl, margin, st).0.take(3) == seq![
            0x1Bu8,
            0x61u8,
            0x00u8,
        ],
{
    let r = row_spec(left, right, bold, cpl, margin, st).0;
    if st.align != Some(0u8) {
        let (c1, s1) = align_cmd(st, 0u8);
        assert(c1 == seq![0x1Bu8, 0x61u8, 0x00u8]);
        assert(r.take(3) == c1);
    }
}

/// A divider is always drawn centred: `ESC a 1`, the rule, a line feed, and
/// the printer is left centred.
pub proof fn lemma_divider_centred(
    cpl: nat,
    margin: nat,
    images: Seq<(Seq<char>, Seq<u8>)>,
    st: PrinterState,
)
    ensures
        element_spec(ElementModel::Divider, cpl, margin, images, st).0.take(3) == seq![
            0x1Bu8,
            0x61u8,
            1u8,
        ],
        element_spec(ElementModel::Divider, cpl, margin, images, st).0.len() == printable_width(
            cpl,
            margin,
        ) + 4,
        element_spec(ElementModel::Divider, cpl, margin, images, st).2.align == Some(1u8),
{
    let b = element_spec(ElementModel::Divider, cpl, margin, images, st).0;
    assert(b.take(3) == seq![0x1Bu8, 0x61u8, 1u8]);
}

/// Every stream begins with the printer initialisation `ESC @`.
pub proof fn lemma_render_starts_with_init(
    doc: Seq<ElementModel>,
    cpl: nat,
    margin: nat,
    images: Seq<(Seq<char>, Seq<u8>)>,
)
    ensures
        render_spec(doc, cpl, margin, images).0.take(2) == seq![0x1Bu8, 0x40u8],
{
    let b = render_spec(doc, cpl, margin, images).0;
    assert(b.take(2) == seq![0x1Bu8, 0x40u8]);
}


/// The printer state after printing the elements `doc` from state `st`.
pub open spec fn state_after(
    doc: Seq<ElementModel>,
    cpl: nat,
    margin: nat,
    images: Seq<(Seq<char>, Seq<u8>)>,
    st: PrinterState,
) -> PrinterState
    decreases doc.len(),
{
    if doc.len() == 0 {
        st
    } else {
        state_after(doc.drop_first(), cpl, margin, images, element_spec(doc[0], cpl, margin, images, st).2)
    }
}

/// Printing one more element appends what it prints from the state the
/// document left, and that element's state follows.
pub proof fn lemma_elements_push(
    doc: Seq<ElementModel>,
    e: ElementModel,
    cpl: nat,
    margin: nat,
    images: Seq<(Seq<char>, Seq<u8>)>,
    st: PrinterState,
)
    ensures
        ({
            let (b, w) = elements_spec(doc, cpl, margin, images, st);
            let (eb, ew, es) = element_spec(e, cpl, margin, images, state_after(doc, cpl, margin, images, st));
            &&& elements_spec(doc.push(e), cpl, margin, images, st) == (b + eb, w + ew)
            &&& state_after(doc.push(e), cpl, margin, images, st) == es
        }),
    decreases doc.len(),
{
    let (eb, ew, es) = element_spec(e, cpl, margin, images, state_after(doc, cpl, margin, images, st));
    if doc.len() == 0 {
        assert(doc.push(e).drop_first() == Seq::<ElementModel>::empty());
        assert(doc.push(e)[0] == e);
        assert(state_after(doc, cpl, margin, images, st) == st);
        assert(elements_spec(doc, cpl, margin, images, st) == (Seq::<u8>::empty(), Seq::<Seq<char>>::empty()));
        assert(elements_spec(Seq::<ElementModel>::empty(), cpl, margin, images, es) == (Seq::<u8>::empty(), Seq::<Seq<char>>::empty()));
        assert(eb + Seq::<u8>::empty() =~= Seq::<u8>::empty() + eb);
        assert(ew + Seq::<Seq<char>>::empty() =~= Seq::<Seq<char>>::empty() + ew);
        assert(elements_spec(doc.push(e), cpl, margin, images, st) == (eb + Seq::<u8>::empty(), ew + Seq::<Seq<char>>::empty()));
        assert(state_after(doc.push(e), cpl, margin, images, st) == state_after(Seq::<ElementModel>::empty(), cpl, margin, images, es));
    } else {
        let (b0, w0, s1) = element_spec(doc[0], cpl, margin, images, st);
        assert(doc.push(e).drop_first() == doc.drop_first().push(e));
        assert(doc.push(e)[0] == doc[0]);
        lemma_elements_push(doc.drop_first(), e, cpl, margin, images, s1);
        assert(state_after(doc, cpl, margin, images, st) == state_after(doc.drop_first(), cpl, margin, images, s1));
        let (rb, rw) = elements_spec(doc.drop_first(), cpl, margin, images, s1);
        assert(elements_spec(doc, cpl, margin, images, st) == (b0 + rb, w0 + rw));
        assert(b0 + (rb + eb) == (b0 + rb) + eb);
        assert(w0 + (rw + ew) == (w0 + rw) + ew);
    }
}

/// After a line of text the printer holds exactly that line's style.
proof fn lemma_text_state(
    content: Seq<char>,
    align: Alignment,
    bold: bool,
    size: SizeMode,
    underline: bool,
    margin: nat,
    st: PrinterState,
)
    ensures
        text_spec(content, align, bold, size, underline, margin, st).1 == (PrinterState {
            align: Some(align_code_spec(align)),
            bold: Some(bold),
            size: Some(size_code_spec(size)),
            underline: Some(underline),
        }),
{
}

/// Appending a line of text in the style of the document's last line of
/// text adds only its padded text and a line feed: no style command is sent
/// again.
pub proof fn lemma_render_append_same_style_text(
    doc: Seq<ElementModel>,
    content: Seq<char>,
    cpl: nat,
    margin: nat,
    images: Seq<(Seq<char>, Seq<u8>)>,
)
    requires
        doc.len() > 0,
        doc.last() is Text,
    ensures
        ({
            let last = doc.last();
            let t = ElementModel::Text {
                content,
                align: last->align,
                bold: last->Text_bold,
                size: last->size,
                underline: last->underline,
            };
            let (b, w) = render_spec(doc, cpl, margin, images);
            render_spec(doc.push(t), cpl, margin, images) == (
                b + padded_spec(content, last->align, margin) + seq![0x0Au8],
                w,
            )
        }),
{
    let last = doc.last();
    let init = doc.drop_last();
    assert(init.push(last) == doc);
    lemma_elements_push(init, last, cpl, margin, images, initial_state());
    let s0 = state_after(init, cpl, margin, images, initial_state());
    lemma_text_state(last->content, last->align, last->Text_bold, last->size, last->underline, margin, s0);
    let st = state_after(doc, cpl, margin, images, initial_state());
    let t = ElementModel::Text {
        content,
        align: last->align,
        bold: last->Text_bold,
        size: last->size,
        underline: last->underline,
    };
    lemma_elements_push(doc, t, cpl, margin, images, initial_state());
    lemma_text_same_style_sends_no_commands(content, last->align, last->Text_bold, last->size, last->underline, margin, st);
    let (b, w) = elements_spec(doc, cpl, margin, images, initial_state());
    let tail = padded_spec(content, last->align, margin) + seq![0x0Au8];
    assert(seq![0x1Bu8, 0x40u8] + (b + tail) == (seq![0x1Bu8, 0x40u8] + b) + tail);
    assert(w + Seq::<Seq<char>>::empty() == w);
}

/// An image that is not in the image table adds nothing: the stream, the
/// QR failures and the printer state are those of the document without it.
pub proof fn lemma_render_missing_image(
    doc: Seq<ElementModel>,
    path: Seq<char>,
    cpl: nat,
    margin: nat,
    images: Seq<(Seq<char>, Seq<u8>)>,
)
    requires
        image_lookup(images, path) is None,
    ensures
        render_spec(doc.push(ElementModel::Image(path)), cpl, margin, images) == render_spec(
            doc,
            cpl,
            margin,
            images,
        ),
        state_after(doc.push(ElementModel::Image(path)), cpl, margin, images, initial_state())
            == state_after(doc, cpl, margin, images, initial_state()),
{
    lemma_elements_push(doc, ElementModel::Image(path), cpl, margin, images, initial_state());
    let (b, w) = elements_spec(doc, cpl, margin, images, initial_state());
    assert(b + Seq::<u8>::empty() == b);
    assert(w + Seq::<Seq<char>>::empty() == w);
}

/// A row leaves the printer left-aligned and in the row's own emphasis,
/// with size and underline as they were. So in a document where a
/// left-aligned text line follows a row of other emphasis, the row's bytes
/// come first and the text's begin by switching emphasis to its own.
pub proof fn lemma_row_sets_emphasis(
    left: Seq<char>,
    right: Seq<char>,
    bold: bool,
    cpl: nat,
    margin: nat,
    images: Seq<(Seq<char>, Seq<u8>)>,
    st: PrinterState,
    content: Seq<char>,
    text_bold: bool,
    size: SizeMode,
    underline: bool,
)
    ensures
        row_spec(left, right, bold, cpl, margin, st).1 == (PrinterState {
            align: Some(0u8),
            bold: Some(bold),
            ..st
        }),
        ({
            let row = row_spec(left, right, bold, cpl, margin, st).0;
            let out = elements_spec(
                seq![
                    (ElementModel::Row { left, right, bold }),
                    (ElementModel::Text { content, align: Alignment::Left, bold: text_bold, size, underline }),
                ],
                cpl,
                margin,
                images,
                st,
            ).0;
            &&& out.take(row.len() as int) == row
            &&& text_bold != bold ==> out.subrange(row.len() as int, row.len() + 3int) == seq![
                0x1Bu8,
                0x45u8,
                flag_byte(text_bold),
            ]
        }),
{
    let row_el = ElementModel::Row { left, right, bold };
    let text_el = ElementModel::Text { content, align: Alignment::Left, bold: text_bold, size, underline };
    let doc = seq![row_el, text_el];
    let (row, s1) = row_spec(left, right, bold, cpl, margin, st);
    let (tb, s2) = text_spec(content, Alignment::Left, text_bold, size, underline, margin, s1);
    assert(doc[0] == row_el);
    assert(doc.drop_first() == seq![text_el]);
    assert(seq![text_el].drop_first() == Seq::<ElementModel>::empty());
    assert(seq![text_el][0] == text_el);
    assert(element_spec(text_el, cpl, margin, images, s1).0 == tb);
    assert(elements_spec(Seq::<ElementModel>::empty(), cpl, margin, images, s2).0 == Seq::<u8>::empty());
    let rest = elements_spec(seq![text_el], cpl, margin, images, s1);
    assert(rest.0 == tb + Seq::<u8>::empty());
    let out = elements_spec(doc, cpl, margin, images, st).0;
    assert(out == row + (tb + Seq::<u8>::empty()));
    assert(out.take(row.len() as int) =~= row);
    if text_bold != bold {
        let (c1, t1) = align_cmd(s1, align_code_spec(Alignment::Left));
        assert(c1 == Seq::<u8>::empty());
        let (c2, t2) = bold_cmd(t1, text_bold);
        assert(c2 == seq![0x1Bu8, 0x45u8, flag_byte(text_bold)]);
        assert(tb.take(3) =~= c2);
        assert(out.subrange(row.len() as int, row.len() + 3int) =~= tb.take(3));
    }
}

/// Raster row `y` sits at bytes `y * row_bytes .. (y + 1) * row_bytes` of
/// the first `h` rows.
proof fn lemma_raster_rows_place(pixels: Seq<u8>, width: int, h: nat, y: int)
    requires
        width >= 0,
        0 <= y < h,
    ensures
        raster_rows(pixels, width, h).subrange(
            y * row_bytes(width),
            y * row_bytes(width) + row_bytes(width),
        ) == raster_row(pixels, width, y),
    decreases h,
{
    let rb = row_bytes(width);
    let prev = raster_rows(pixels, width, (h - 1) as nat);
    let all = raster_rows(pixels, width, h);
    lemma_raster_rows_length(pixels, width, (h - 1) as nat);
    assert(all == prev + raster_row(pixels, width, h - 1));
    assert(rb >= 0);
    if y < h - 1 {
        lemma_raster_rows_place(pixels, width, (h - 1) as nat, y);
        assert(y * rb + rb <= (h - 1) * rb) by (nonlinear_arith)
            requires
                y < h - 1,
                rb >= 0,
        ;
        assert(y * rb >= 0) by (nonlinear_arith)
            requires
                y >= 0,
                rb >= 0,
        ;
        assert(all.subrange(y * rb, y * rb + rb) =~= prev.subrange(y * rb, y * rb + rb));
    } else {
        assert(y * rb == (h - 1) * rb);
        assert(prev.len() == y * rb);
        assert(all.subrange(y * rb, y * rb + rb) =~= raster_row(pixels, width, h - 1));
    }
}

/// The layout of a raster command: `GS v 0` with mode 0; the row width in
/// bytes and the height in rows, each a 16-bit little-endian number (the
/// height exactly when it is below 65536); then each row's bitmap in turn,
/// top row first, one byte per 8 pixels.
pub proof fn lemma_raster_layout(width: int, height: nat, pixels: Seq<u8>)
    requires
        width >= 0,
    ensures
        ({
            let r = raster_spec(width, height, pixels);
            let rb = row_bytes(width);
            &&& r.len() == 8 + rb * height
            &&& r.take(4) == seq![0x1Du8, 0x76u8, 0x30u8, 0x00u8]
            &&& r[4] + 256 * r[5] == rb % 65536
            &&& r[6] + 256 * r[7] == height % 65536
            &&& height < 65536 ==> r[6] + 256 * r[7] == height
            &&& rb < 65536 ==> r[4] + 256 * r[5] == rb
            &&& forall|y: int|
                0 <= y < height ==> r.subrange(8 + y * rb, 8 + y * rb + rb) == raster_row(
                    pixels,
                    width,
                    y,
                )
        }),
{
    let r = raster_spec(width, height, pixels);
    let rb = row_bytes(width);
    let rows = raster_rows(pixels, width, height);
    lemma_raster_length(width, height, pixels);
    lemma_raster_rows_length(pixels, width, height);
    assert(rb >= 0);
    assert(r.take(4) =~= seq![0x1Du8, 0x76u8, 0x30u8, 0x00u8]);
    vstd::arithmetic::div_mod::lemma_mod_breakdown(rb, 256, 256);
    vstd::arithmetic::div_mod::lemma_mod_breakdown(height as int, 256, 256);
    assert(r[4] == rb % 256);
    assert(r[5] == (rb / 256) % 256);
    assert(r[6] == height % 256);
    assert(r[7] == (height / 256) % 256);
    assert forall|y: int| 0 <= y < height implies r.subrange(8 + y * rb, 8 + y * rb + rb)
        == raster_row(pixels, width, y) by {
        lemma_raster_rows_place(pixels, width, height, y);
        assert(y * rb >= 0) by (nonlinear_arith)
            requires
                y >= 0,
                rb >= 0,
        ;
        assert(y * rb + rb <= height * rb) by (nonlinear_arith)
            requires
                y < height,
                rb >= 0,
        ;
        assert(r.subrange(8 + y * rb, 8 + y * rb + rb) =~= rows.subrange(y * rb, y * rb + rb));
    }
}

/// Eight one-bit flags, most significant first, joined by `|`: bit `j`
/// (counted from the top) of the result is flag `j`.
proof fn lemma_join_bits(v0: u8, v1: u8, v2: u8, v3: u8, v4: u8, v5: u8, v6: u8, v7: u8)
    by (bit_vector)
    requires
        v0 == 0 || v0 == 0x80,
        v1 == 0 || v1 == 0x40,
        v2 == 0 || v2 == 0x20,
        v3 == 0 || v3 == 0x10,
        v4 == 0 || v4 == 0x08,
        v5 == 0 || v5 == 0x04,
        v6 == 0 || v6 == 0x02,
        v7 == 0 || v7 == 0x01,
    ensures
        ((((((((0u8 | v0) | v1) | v2) | v3) | v4) | v5) | v6) | v7) & 0x80 == v0,
        ((((((((0u8 | v0) | v1) | v2) | v3) | v4) | v5) | v6) | v7) & 0x40 == v1,
        ((((((((0u8 | v0) | v1) | v2) | v3) | v4) | v5) | v6) | v7) & 0x20 == v2,
        ((((((((0u8 | v0) | v1) | v2) | v3) | v4) | v5) | v6) | v7) & 0x10 == v3,
        ((((((((0u8 | v0) | v1) | v2) | v3) | v4) | v5) | v6) | v7) & 0x08 == v4,
        ((((((((0u8 | v0) | v1) | v2) | v3) | v4) | v5) | v6) | v7) & 0x04 == v5,
        ((((((((0u8 | v0) | v1) | v2) | v3) | v4) | v5) | v6) | v7) & 0x02 == v6,
        ((((((((0u8 | v0) | v1) | v2) | v3) | v4) | v5) | v6) | v7) & 0x01 == v7,
{
}

/// The mask of bit `j` of a byte, counted from the most significant.
pub open spec fn top_bit(j: int) -> u8 {
    if j == 0 {
        0x80u8
    } else if j == 1 {
        0x40u8
    } else if j == 2 {
        0x20u8
    } else if j == 3 {
        0x10u8
    } else if j == 4 {
        0x08u8
    } else if j == 5 {
        0x04u8
    } else if j == 6 {
        0x02u8
    } else {
        0x01u8
    }
}

/// Each bitmap byte holds 8 pixels of its row, the leftmost in the most
/// significant bit: bit `j` of byte `b` of row `y` is set exactly when pixel
/// `8 * b + j` exists and is darker than mid-gray (below 128).
pub proof fn lemma_raster_pixel_bits(pixels: Seq<u8>, width: int, y: int, b: int, j: int)
    requires
        0 <= b < row_bytes(width),
        0 <= j < 8,
    ensures
        (raster_row(pixels, width, y)[b] & top_bit(j) != 0) == (8 * b + j < width && pixels[y * width
            + 8 * b + j] < 128),
{
    let v0 = raster_bit(pixels, width, y, b, 0);
    let v1 = raster_bit(pixels, width, y, b, 1);
    let v2 = raster_bit(pixels, width, y, b, 2);
    let v3 = raster_bit(pixels, width, y, b, 3);
    let v4 = raster_bit(pixels, width, y, b, 4);
    let v5 = raster_bit(pixels, width, y, b, 5);
    let v6 = raster_bit(pixels, width, y, b, 6);
    let v7 = raster_bit(pixels, width, y, b, 7);
    assert(0x80u8 >> 0u8 == 0x80u8) by (bit_vector);
    assert(0x80u8 >> 1u8 == 0x40u8) by (bit_vector);
    assert(0x80u8 >> 2u8 == 0x20u8) by (bit_vector);
    assert(0x80u8 >> 3u8 == 0x10u8) by (bit_vector);
    assert(0x80u8 >> 4u8 == 0x08u8) by (bit_vector);
    assert(0x80u8 >> 5u8 == 0x04u8) by (bit_vector);
    assert(0x80u8 >> 6u8 == 0x02u8) by (bit_vector);
    assert(0x80u8 >> 7u8 == 0x01u8) by (bit_vector);
    assert(raster_byte(pixels, width, y, b, 8) == ((((((((0u8 | v0) | v1) | v2) | v3) | v4) | v5)
        | v6) | v7)) by {
        reveal_with_fuel(raster_byte, 9);
    }
    lemma_join_bits(v0, v1, v2, v3, v4, v5, v6, v7);
    assert(raster_row(pixels, width, y)[b] == raster_byte(pixels, width, y, b, 8));
}

/// A document that opens with a line of text sends, after `ESC @`, all four
/// style commands in turn: `ESC a` with 0, 1 or 2 for left, centre or right;
/// `ESC E` with 1 for bold and 0 otherwise; `GS !` with 0x00 for normal and
/// 0x11 for double size; `ESC -` with 1 for underline and 0 otherwise.
pub proof fn lemma_first_text_sends_style(
    content: Seq<char>,
    align: Alignment,
    bold: bool,
    size: SizeMode,
    underline: bool,
    rest: Seq<ElementModel>,
    cpl: nat,
    margin: nat,
    images: Seq<(Seq<char>, Seq<u8>)>,
)
    ensures
        ({
            let a: u8 = match align {
                Alignment::Left => 0u8,
                Alignment::Center => 1u8,
                Alignment::Right => 2u8,
            };
            let z: u8 = match size {
                SizeMode::Normal => 0x00u8,
                SizeMode::Double => 0x11u8,
            };
            let e: u8 = if bold {
                1u8
            } else {
                0u8
            };
            let u: u8 = if underline {
                1u8
            } else {
                0u8
            };
            let doc = seq![(ElementModel::Text { content, align, bold, size, underline })] + rest;
            render_spec(doc, cpl, margin, images).0.take(14) == seq![
                0x1Bu8,
                0x40u8,
                0x1Bu8,
                0x61u8,
                a,
                0x1Bu8,
                0x45u8,
                e,
                0x1Du8,
                0x21u8,
                z,
                0x1Bu8,
                0x2Du8,
                u,
            ]
        }),
{
    let t = ElementModel::Text { content, align, bold, size, underline };
    let doc = seq![t] + rest;
    assert(doc[0] == t);
    let st = initial_state();
    let (c1, s1) = align_cmd(st, align_code_spec(align));
    let (c2, s2) = bold_cmd(s1, bold);
    let (c3, s3) = size_cmd(s2, size_code_spec(size));
    let (c4, s4) = underline_cmd(s3, underline);
    assert(c1 == seq![0x1Bu8, 0x61u8, align_code_spec(align)]);
    assert(c2 == seq![0x1Bu8, 0x45u8, flag_byte(bold)]);
    assert(c3 == seq![0x1Du8, 0x21u8, size_code_spec(size)]);
    assert(c4 == seq![0x1Bu8, 0x2Du8, flag_byte(underline)]);
    let tail = padded_spec(content, align, margin) + seq![0x0Au8];
    let (tb, ts) = text_spec(content, align, bold, size, underline, margin, st);
    assert(tb == c1 + c2 + c3 + c4 + tail);
    let (rb, rw) = elements_spec(doc.drop_first(), cpl, margin, images, ts);
    assert(elements_spec(doc, cpl, margin, images, st).0 == tb + rb);
    let pre = seq![0x1Bu8, 0x40u8] + c1 + c2 + c3 + c4;
    let out = render_spec(doc, cpl, margin, images).0;
    assert(out == seq![0x1Bu8, 0x40u8] + (tb + rb));
    assert(out =~= pre + (tail + rb));
    assert(pre =~= seq![
        0x1Bu8,
        0x40u8,
        0x1Bu8,
        0x61u8,
        align_code_spec(align),
        0x1Bu8,
        0x45u8,
        flag_byte(bold),
        0x1Du8,
        0x21u8,
        size_code_spec(size),
        0x1Bu8,
        0x2Du8,
        flag_byte(underline),
    ]);
    assert((pre + (tail + rb)).take(14) =~= pre);
}

/// A line of text in the style the printer already has is its UTF-8 bytes
/// and a line feed: left-aligned text comes after `margin` spaces,
/// right-aligned text before them, centred text has none.
pub proof fn lemma_text_padding(
    content: Seq<char>,
    align: Alignment,
    bold: bool,
    size: SizeMode,
    underline: bool,
    margin: nat,
    st: PrinterState,
)
    requires
        st.align == Some(align_code_spec(align)),
        st.bold == Some(bold),
        st.size == Some(size_code_spec(size)),
        st.underline == Some(underline),
    ensures
        ({
            let pad = Seq::new(margin, |i: int| 0x20u8);
            let text = encode_utf8(content);
            text_spec(content, align, bold, size, underline, margin, st).0 == match align {
                Alignment::Left => pad + text + seq![0x0Au8],
                Alignment::Right => text + pad + seq![0x0Au8],
                Alignment::Center => text + seq![0x0Au8],
            }
        }),
{
    lemma_text_same_style_sends_no_commands(content, align, bold, size, underline, margin, st);
}

/// The fixed elements: a blank line is a space and a line feed, a cut is
/// `GS V 1`, and neither changes the printer's state; a divider is
/// `ESC a 1`, one `-` per character of the printable width, and a line
/// feed, and leaves the printer centred.
pub proof fn lemma_fixed_elements(
    cpl: nat,
    margin: nat,
    images: Seq<(Seq<char>, Seq<u8>)>,
    st: PrinterState,
)
    ensures
        element_spec(ElementModel::Blank, cpl, margin, images, st) == (
            seq![0x20u8, 0x0Au8],
            Seq::<Seq<char>>::empty(),
            st,
        ),
        element_spec(ElementModel::Cut, cpl, margin, images, st) == (
            seq![0x1Du8, 0x56u8, 0x01u8],
            Seq::<Seq<char>>::empty(),
            st,
        ),
        ({
            let (b, w, s) = element_spec(ElementModel::Divider, cpl, margin, images, st);
            let width: int = if cpl >= 2 * margin {
                cpl - 2 * margin
            } else {
                0
            };
            &&& b.len() == width + 4
            &&& b.take(3) == seq![0x1Bu8, 0x61u8, 0x01u8]
            &&& forall|i: int| 3 <= i < width + 3 ==> b[i] == 0x2Du8
            &&& b[width + 3] == 0x0Au8
            &&& w.len() == 0
            &&& s == (PrinterState { align: Some(1u8), ..st })
        }),
{
    lemma_divider_centred(cpl, margin, images, st);
}

/// A row is sent as `ESC a 0` unless the printer is already left-aligned,
/// then `ESC E` with the row's emphasis unless the printer already has it,
/// then `margin` spaces, the laid-out row over the printable width (`cpl`
/// less both margins, or nothing), and a line feed.
pub proof fn lemma_row_bytes(
    left: Seq<char>,
    right: Seq<char>,
    bold: bool,
    cpl: nat,
    margin: nat,
    st: PrinterState,
)
    ensures
        ({
            let width: int = if cpl >= 2 * margin {
                cpl - 2 * margin
            } else {
                0
            };
            let body = Seq::new(margin, |i: int| 0x20u8) + encode_utf8(format_row_spec(left, right, width))
                + seq![0x0Au8];
            let e: u8 = if bold {
                1u8
            } else {
                0u8
            };
            let a: Seq<u8> = if st.align == Some(0u8) {
                Seq::empty()
            } else {
                seq![0x1Bu8, 0x61u8, 0x00u8]
            };
            let c: Seq<u8> = if st.bold == Some(bold) {
                Seq::empty()
            } else {
                seq![0x1Bu8, 0x45u8, e]
            };
            row_spec(left, right, bold, cpl, margin, st).0 == a + c + body
        }),
{
    let width: int = if cpl >= 2 * margin {
        cpl - 2 * margin
    } else {
        0
    };
    assert(printable_width(cpl, margin) as int == width);
    let (c1, s1) = align_cmd(st, 0u8);
    let (c2, s2) = bold_cmd(s1, bold);
    let line = format_row_spec(left, right, width);
    assert(c1 + c2 + spaces(margin) + encode_utf8(line) + seq![0x0Au8] == c1 + c2 + (spaces(margin)
        + encode_utf8(line) + seq![0x0Au8]));
}

/// An image is printed as the bytes stored for its path in the first entry
/// of the table that names it, leaving the printer state as it was, and
/// nothing when no entry names it.
pub proof fn lemma_image_from_table(
    path: Seq<char>,
    cpl: nat,
    margin: nat,
    images: Seq<(Seq<char>, Seq<u8>)>,
    st: PrinterState,
)
    ensures
        (forall|j: int| 0 <= j < images.len() ==> images[j].0 != path) ==> element_spec(
            ElementModel::Image(path),
            cpl,
            margin,
            images,
            st,
        ) == (Seq::<u8>::empty(), Seq::<Seq<char>>::empty(), st),
        forall|i: int|
            0 <= i < images.len() && images[i].0 == path && (forall|j: int|
                0 <= j < i ==> images[j].0 != path) ==> element_spec(
                ElementModel::Image(path),
                cpl,
                margin,
                images,
                st,
            ) == (images[i].1, Seq::<Seq<char>>::empty(), st),
{
    lemma_image_lookup_first(images, path);
}

proof fn lemma_image_lookup_first(images: Seq<(Seq<char>, Seq<u8>)>, path: Seq<char>)
    ensures
        (forall|j: int| 0 <= j < images.len() ==> images[j].0 != path) ==> image_lookup(images, path)
            is None,
        forall|i: int|
            0 <= i < images.len() && images[i].0 == path && (forall|j: int|
                0 <= j < i ==> images[j].0 != path) ==> image_lookup(images, path) == Some(images[i].1),
    decreases images.len(),
{
    if images.len() > 0 {
        let rest = images.drop_first();
        lemma_image_lookup_first(rest, path);
        assert forall|j: int| 1 <= j < images.len() implies images[j] == rest[j - 1] by {}
        if images[0].0 != path {
            assert forall|i: int|
                0 <= i < images.len() && images[i].0 == path && (forall|j: int|
                    0 <= j < i ==> images[j].0 != path) implies image_lookup(images, path) == Some(
                images[i].1,
            ) by {
                assert(i > 0);
                assert(rest[i - 1] == images[i]);
                assert forall|j: int| 0 <= j < i - 1 implies rest[j].0 != path by {
                    assert(rest[j] == images[j + 1]);
                }
            }
            if forall|j: int| 0 <= j < images.len() ==> images[j].0 != path {
                assert forall|j: int| 0 <= j < rest.len() implies rest[j].0 != path by {
                    assert(rest[j] == images[j + 1]);
                }
            }
        }
    }
}

} // verus!
