//! QR codes drawn as raster images.
use vstd::prelude::*;
use super::escpos::{raster_bytes_from_gray, raster_spec, row_bytes, GrayBitmap};
use crate::text::{from_chars, to_chars};

verus! {

/// `qrcode::QrCode`, an encoded symbol, carried through opaquely.
#[verifier::external_type_specification]
#[verifier::external_body]
pub struct ExQrCode(qrcode::QrCode);

/// `qrcode::types::QrError`, why data could not be encoded, carried through opaquely.
#[verifier::external_type_specification]
#[verifier::external_body]
pub struct ExQrError(qrcode::types::QrError);

/// The symbol that `qrcode::QrCode::new` encodes `data` into (automatic
/// version, medium error correction): its side in modules and its modules
/// row by row (dark = `true`), or nothing when the data cannot be encoded.
pub uninterp spec fn qr_symbol(data: Seq<u8>) -> Option<(nat, Seq<bool>)>;

/// The side, in modules, of a QR code value.
pub uninterp spec fn qr_code_width(code: qrcode::QrCode) -> nat;

/// The modules of a QR code value, row by row (dark = `true`).
pub uninterp spec fn qr_code_modules(code: qrcode::QrCode) -> Seq<bool>;

/// `qrcode::QrCode::new`: encodes `data`. The code it returns is the symbol
/// that `qr_symbol` names for `data`; it fails exactly when `qr_symbol` is
/// nothing. Its source picks a normal version from 1 to 40 (side `4v + 17`)
/// and stores `side * side` modules.
#[verifier::external_body]
fn qr_code_new(data: &[u8]) -> (r: Result<qrcode::QrCode, qrcode::types::QrError>)
    ensures
        match r {
            Ok(code) => {
                &&& qr_symbol(data@) == Some((qr_code_width(code), qr_code_modules(code)))
                &&& 21 <= qr_code_width(code) <= 177
                &&& qr_code_modules(code).len() == qr_code_width(code) * qr_code_width(code)
            },
            Err(_) => qr_symbol(data@) is None,
        },
{
    qrcode::QrCode::new(data)
}

/// `qrcode::QrCode::width`: the side of the code in modules.
#[verifier::external_body]
fn qr_width(code: &qrcode::QrCode) -> (w: usize)
    ensures
        w == qr_code_width(*code),
{
    code.width()
}

/// `qrcode::QrCode::to_colors`: the modules of the code row by row, each
/// `Color::Dark` given as `true` and `Color::Light` as `false`.
#[verifier::external_body]
fn qr_dark_modules(code: &qrcode::QrCode) -> (v: Vec<bool>)
    ensures
        v@ == qr_code_modules(*code),
{
    code.to_colors().into_iter().map(|c| matches!(c, qrcode::Color::Dark)).collect()
}

/// Pixels per QR module.
pub const MODULE_PX: u32 = 6;

/// Modules of white border around the symbol.
pub const QUIET_ZONE: u32 = 2;

/// The side in pixels of the image of a symbol `side` modules wide.
pub open spec fn qr_image_side(side: int) -> int {
    (side + 2 * QUIET_ZONE) * MODULE_PX
}

/// Pixel `(x, y)` of the image of a symbol: black on a dark module, white
/// elsewhere (including the quiet zone).
pub open spec fn qr_pixel(side: int, dark: Seq<bool>, x: int, y: int) -> u8 {
    let mx = x / MODULE_PX as int - QUIET_ZONE;
    let my = y / MODULE_PX as int - QUIET_ZONE;
    if 0 <= mx < side && 0 <= my < side && dark[my * side + mx] {
        0u8
    } else {
        255u8
    }
}

/// The first `rows` rows of pixels of the image of a symbol.
pub open spec fn qr_pixel_rows(side: int, dark: Seq<bool>, rows: nat) -> Seq<u8>
    decreases rows,
{
    if rows == 0 {
        Seq::empty()
    } else {
        qr_pixel_rows(side, dark, (rows - 1) as nat) + Seq::new(
            qr_image_side(side) as nat,
            |x: int| qr_pixel(side, dark, x, rows - 1),
        )
    }
}

/// The raster command that a QR code of `content` is printed as, or nothing
/// when the content cannot be encoded.
pub open spec fn qr_raster_spec(content: Seq<char>) -> Option<Seq<u8>> {
    match qr_symbol(vstd::utf8::encode_utf8(content)) {
        Some((side, dark)) => {
            let n = qr_image_side(side as int);
            Some(raster_spec(n, n as nat, qr_pixel_rows(side as int, dark, n as nat)))
        },
        None => None,
    }
}

/// The QR content that could not be encoded.
#[derive(Debug)]
pub struct QrEncodeError {
    pub content: String,
}

impl QrEncodeError {
    /// The human-readable text of this error.
    pub fn message(&self) -> (m: String)
        ensures
            m@ == "failed to encode QR content: "@ + self.content@,
    {
        let mut v = to_chars("failed to encode QR content: ");
        let c = to_chars(self.content.as_str());
        crate::text::append_chars(&mut v, c.as_slice());
        from_chars(v.as_slice())
    }
}

proof fn lemma_module_index(mx: int, my: int, side: int)
    requires
        0 <= mx < side,
        0 <= my < side,
    ensures
        0 <= my * side + mx < side * side,
{
    assert(my * side + mx < side * side) by (nonlinear_arith)
        requires
            0 <= mx < side,
            0 <= my < side,
    ;
    assert(0 <= my * side) by (nonlinear_arith)
        requires
            0 <= my,
            0 <= side,
    ;
}

/// The grayscale image of a symbol `side` modules wide: a white quiet zone,
/// then each module drawn as a square of pixels.
fn qr_image(side: usize, dark: &Vec<bool>) -> (img: GrayBitmap)
    requires
        21 <= side <= 177,
        dark@.len() == side * side,
    ensures
        img.wf(),
        img.width == qr_image_side(side as int),
        img.height == qr_image_side(side as int),
        img.pixels@ == qr_pixel_rows(side as int, dark@, img.height as nat),
{
    let n: u32 = ((side as u32) + 2 * QUIET_ZONE) * MODULE_PX;
    let mut pixels: Vec<u8> = Vec::new();
    let mut y: u32 = 0;
    while y < n
        invariant
            21 <= side <= 177,
            dark@.len() == side * side,
            n == qr_image_side(side as int),
            y <= n,
            pixels@ == qr_pixel_rows(side as int, dark@, y as nat),
            pixels@.len() == y * n,
        decreases n - y,
    {
        let ghost prev = pixels@;
        let mut x: u32 = 0;
        while x < n
            invariant
                21 <= side <= 177,
                dark@.len() == side * side,
                n == qr_image_side(side as int),
                y < n,
                x <= n,
                pixels@ == prev + Seq::new(n as nat, |xx: int| qr_pixel(side as int, dark@, xx, y as int)).take(x as int),
                prev.len() == y * n,
            decreases n - x,
        {
            let mxp = x / MODULE_PX;
            let myp = y / MODULE_PX;
            let mut value: u8 = 255;
            if mxp >= QUIET_ZONE && myp >= QUIET_ZONE && ((mxp - QUIET_ZONE) as usize) < side
                && ((myp - QUIET_ZONE) as usize) < side {
                let mx = (mxp - QUIET_ZONE) as usize;
                let my = (myp - QUIET_ZONE) as usize;
                proof {
                    lemma_module_index(mx as int, my as int, side as int);
                    assert(side * side <= 177 * 177) by (nonlinear_arith)
                        requires
                            side <= 177,
                    ;
                    assert(my * side <= my * side + mx);
                }
                if dark[my * side + mx] {
                    value = 0;
                }
            }
            assert(value == qr_pixel(side as int, dark@, x as int, y as int));
            pixels.push(value);
            proof {
                let row = Seq::new(n as nat, |xx: int| qr_pixel(side as int, dark@, xx, y as int));
                assert(row.take(x + 1) == row.take(x as int).push(row[x as int]));
            }
            x += 1;
        }
        proof {
            let row = Seq::new(n as nat, |xx: int| qr_pixel(side as int, dark@, xx, y as int));
            assert(row.take(n as int) == row);
            assert((y + 1) * n == y * n + n) by (nonlinear_arith);
        }
        y += 1;
    }
    GrayBitmap { width: n, height: n, pixels }
}

/// Renders `content` as a QR code and returns it as a GS v 0 raster image
/// command (actual pixels), instead of native ESC/POS QR commands, which some
/// printers and emulators mis-parse as printable text.
pub fn qr_bytes(content: &str) -> (r: Result<Vec<u8>, QrEncodeError>)
    ensures
        match r {
            Ok(bytes) => qr_raster_spec(content@) == Some(bytes@),
            Err(e) => qr_raster_spec(content@) is None && e.content@ == content@,
        },
{
    let data = content.as_bytes();
    let code = match qr_code_new(data) {
        Ok(c) => c,
        Err(_) => {
            return Err(QrEncodeError { content: from_chars(to_chars(content).as_slice()) });
        },
    };
    let side = qr_width(&code);
    let dark = qr_dark_modules(&code);
    let img = qr_image(side, &dark);
    assert(row_bytes(img.width as int) <= 1100);
    assert(row_bytes(img.width as int) * img.height <= u32::MAX) by (nonlinear_arith)
        requires
            row_bytes(img.width as int) <= 1100,
            img.height <= 1086,
            row_bytes(img.width as int) >= 0,
    ;
    Ok(raster_bytes_from_gray(&img))
}

/// The picture of a symbol `side` modules wide is `(side + 4) * 6` pixels
/// square: each module is a 6 by 6 square of pixels, black (0) when the
/// module is dark and white (255) when it is light, inside a white border
/// two modules wide on every side.
pub proof fn lemma_qr_picture(side: int, dark: Seq<bool>)
    requires
        side >= 0,
        dark.len() == side * side,
    ensures
        qr_image_side(side) == (side + 4) * 6,
        forall|mx: int, my: int, dx: int, dy: int|
            0 <= mx < side && 0 <= my < side && 0 <= dx < 6 && 0 <= dy < 6 ==> #[trigger] qr_pixel(
                side,
                dark,
                (mx + 2) * 6 + dx,
                (my + 2) * 6 + dy,
            ) == if dark[my * side + mx] {
                0u8
            } else {
                255u8
            },
        forall|x: int, y: int|
            0 <= x && 0 <= y && (x < 12 || y < 12 || x >= (side + 2) * 6 || y >= (side + 2) * 6)
                ==> #[trigger] qr_pixel(side, dark, x, y) == 255u8,
{
    assert forall|mx: int, my: int, dx: int, dy: int|
        0 <= mx < side && 0 <= my < side && 0 <= dx < 6 && 0 <= dy < 6 implies #[trigger] qr_pixel(
        side,
        dark,
        (mx + 2) * 6 + dx,
        (my + 2) * 6 + dy,
    ) == if dark[my * side + mx] {
        0u8
    } else {
        255u8
    } by {
        assert(((mx + 2) * 6 + dx) / 6 == mx + 2) by (nonlinear_arith)
            requires
                0 <= dx < 6,
                mx >= 0,
        ;
        assert(((my + 2) * 6 + dy) / 6 == my + 2) by (nonlinear_arith)
            requires
                0 <= dy < 6,
                my >= 0,
        ;
    }
    assert forall|x: int, y: int|
        0 <= x && 0 <= y && (x < 12 || y < 12 || x >= (side + 2) * 6 || y >= (side + 2) * 6)
            implies #[trigger] qr_pixel(side, dark, x, y) == 255u8 by {
        if x < 12 {
            assert(x / 6 < 2) by (nonlinear_arith)
                requires
                    0 <= x < 12,
            ;
        }
        if y < 12 {
            assert(y / 6 < 2) by (nonlinear_arith)
                requires
                    0 <= y < 12,
            ;
        }
        if x >= (side + 2) * 6 {
            assert(x / 6 >= side + 2) by (nonlinear_arith)
                requires
                    x >= (side + 2) * 6,
            ;
        }
        if y >= (side + 2) * 6 {
            assert(y / 6 >= side + 2) by (nonlinear_arith)
                requires
                    y >= (side + 2) * 6,
            ;
        }
    }
}

/// The pixels of a symbol's picture are laid out row by row, top row
/// first: pixel `(x, y)` is at `y * width + x`.
pub proof fn lemma_qr_pixel_rows_layout(side: int, dark: Seq<bool>, rows: nat)
    requires
        side >= 0,
    ensures
        qr_pixel_rows(side, dark, rows).len() == rows * qr_image_side(side),
        forall|x: int, y: int|
            0 <= x < qr_image_side(side) && 0 <= y < rows ==> qr_pixel_rows(side, dark, rows)[y
                * qr_image_side(side) + x] == qr_pixel(side, dark, x, y),
    decreases rows,
{
    let n = qr_image_side(side);
    assert(n >= 0);
    if rows > 0 {
        let r1 = (rows - 1) as nat;
        lemma_qr_pixel_rows_layout(side, dark, r1);
        let prev = qr_pixel_rows(side, dark, r1);
        let row = Seq::new(n as nat, |x: int| qr_pixel(side, dark, x, rows - 1));
        assert(qr_pixel_rows(side, dark, rows) == prev + row);
        assert(rows * n == r1 * n + n) by (nonlinear_arith)
            requires
                r1 == rows - 1,
        ;
        assert forall|x: int, y: int| 0 <= x < n && 0 <= y < rows implies qr_pixel_rows(
            side,
            dark,
            rows,
        )[y * n + x] == qr_pixel(side, dark, x, y) by {
            if y < r1 {
                assert(y * n + x < r1 * n) by (nonlinear_arith)
                    requires
                        y < r1,
                        0 <= x < n,
                ;
                assert(y * n + x >= 0) by (nonlinear_arith)
                    requires
                        y >= 0,
                        x >= 0,
                        n >= 0,
                ;
            } else {
                assert(y * n == r1 * n);
            }
        }
    } else {
        assert(rows * n == 0) by (nonlinear_arith)
            requires
                rows == 0,
        ;
    }
}

} // verus!
