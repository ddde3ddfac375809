//! The template's QR code: the module grid that the qrcode crate makes of the
//! page label, as a grayscale image of one pixel per module (dark 0, light
//! 255, no quiet zone), ready to be scaled onto the page.
use vstd::prelude::*;
use qrcode::types::QrError;
use qrcode::Color;

verus! {

/// Why the label could not be encoded (the cases of qrcode's `QrError`).
#[derive(Clone, Copy, Debug, PartialEq, Eq, Structural)]
pub enum QrEncodeFailure {
    DataTooLong,
    InvalidVersion,
    UnsupportedCharacterSet,
    InvalidEciDesignator,
    InvalidCharacter,
}

/// What qrcode's `QrCode::new` makes of `data` (error correction level M,
/// smallest version): the modules row by row, `true` for dark, with the
/// number of modules per side; or the reason it fails.
pub uninterp spec fn qr_modules_of(data: Seq<u8>) -> Result<(Seq<bool>, nat), QrEncodeFailure>;

/// A module grid with its side as a plain value.
pub open spec fn modules_view(r: Result<(Vec<bool>, usize), QrEncodeFailure>) -> Result<
    (Seq<bool>, nat),
    QrEncodeFailure,
> {
    match r {
        Ok((m, w)) => Ok((m@, w as nat)),
        Err(e) => Err(e),
    }
}

/// qrcode's `QrCode::new` on `data`, then `to_colors` and `width`, each
/// `Color` read as `true` for `Dark`, the `QrError` turned into the matching
/// `QrEncodeFailure`. Claimed: the result is `qr_modules_of(data)`, a
/// function of the bytes alone, and a code has `width * width` modules
/// (`Canvas::new` allocates that many and `into_colors` keeps them).
#[verifier::external_body]
fn qr_modules(data: &[u8]) -> (r: Result<(Vec<bool>, usize), QrEncodeFailure>)
    ensures
        modules_view(r) == qr_modules_of(data@),
        r matches Ok((m, w)) ==> m@.len() == (w as int) * (w as int),
{
    let code = match qrcode::QrCode::new(data) {
        Ok(code) => code,
        Err(e) => return Err(match e {
            QrError::DataTooLong => QrEncodeFailure::DataTooLong,
            QrError::InvalidVersion => QrEncodeFailure::InvalidVersion,
            QrError::UnsupportedCharacterSet => QrEncodeFailure::UnsupportedCharacterSet,
            QrError::InvalidEciDesignator => QrEncodeFailure::InvalidEciDesignator,
            QrError::InvalidCharacter => QrEncodeFailure::InvalidCharacter,
        }),
    };
    let m = code.to_colors().iter().map(|c| match c { Color::Dark => true, Color::Light => false }).collect();
    Ok((m, code.width()))
}

/// Gray value of a module: dark 0, light 255.
pub open spec fn module_gray(dark: bool) -> u8 {
    if dark {
        0
    } else {
        255
    }
}

/// The grayscale image of a module grid, one pixel per module.
pub fn module_pixels(modules: &Vec<bool>) -> (px: Vec<u8>)
    ensures
        px@.len() == modules@.len(),
        forall|i: int| 0 <= i < modules@.len() ==> #[trigger] px@[i] == module_gray(modules@[i]),
{
    let mut px: Vec<u8> = Vec::new();
    let mut i: usize = 0;
    while i < modules.len()
        invariant
            0 <= i <= modules@.len(),
            px@.len() == i,
            forall|k: int| 0 <= k < i ==> #[trigger] px@[k] == module_gray(modules@[k]),
        decreases modules@.len() - i,
    {
        px.push(if modules[i] { 0 } else { 255 });
        i += 1;
    }
    px
}

/// The page label's QR code as a grayscale image of one pixel per module
/// (dark 0, light 255, no quiet zone), with its side in modules; the reason
/// when the label cannot be encoded.
pub fn qr_module_image(data: &[u8]) -> (r: Result<(Vec<u8>, usize), QrEncodeFailure>)
    ensures
        match (r, qr_modules_of(data@)) {
            (Ok((px, w)), Ok((m, mw))) => w == mw && px@.len() == m.len() && m.len() == w * w && forall|i: int|
                0 <= i < m.len() ==> #[trigger] px@[i] == module_gray(m[i]),
            (Err(e), Err(f)) => e == f,
            _ => false,
        },
{
    match qr_modules(data) {
        Ok((m, w)) => {
            let px = module_pixels(&m);
            Ok((px, w))
        },
        Err(e) => Err(e),
    }
}

} // verus!
