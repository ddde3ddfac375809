//! Reading the page's QR code: the outcome of decoding the first grid found
//! in the page, as the library's own values. The grid search itself (rqrr)
//! runs in the program around the library: rqrr asserts and `expect`s on
//! some images and may unwind there, which a verified function of this
//! library may not do, and no precondition over the pixels can rule it out.
use vstd::prelude::*;

verus! {

/// Why a QR grid could not be decoded (the cases of rqrr's decoder).
#[derive(Clone, Copy, Debug, PartialEq, Eq, Structural)]
pub enum DecodeFailure {
    IoError,
    DataUnderflow,
    DataOverflow,
    UnknownDataType,
    DataEcc,
    FormatEcc,
    InvalidVersion,
    InvalidGridSize,
    EncodingError,
}

/// Why no text was read.
#[derive(Clone, Copy, Debug, PartialEq, Eq, Structural)]
pub enum QrReadError {
    /// No QR grid was found.
    NotFound,
    /// The first grid found could not be decoded.
    Decode(DecodeFailure),
}

/// A decode result with its text as characters.
pub open spec fn result_view(r: Option<Result<String, DecodeFailure>>) -> Option<Result<Seq<char>, DecodeFailure>> {
    match r {
        None => None,
        Some(Ok(s)) => Some(Ok(s@)),
        Some(Err(e)) => Some(Err(e)),
    }
}

/// The outcome that the first grid's decode result gives: no grid is
/// `NotFound`; otherwise its text, or the reason it failed.
pub open spec fn first_grid_outcome(r: Option<Result<Seq<char>, DecodeFailure>>) -> Result<Seq<char>, QrReadError> {
    match r {
        None => Err(QrReadError::NotFound),
        Some(Ok(s)) => Ok(s),
        Some(Err(e)) => Err(QrReadError::Decode(e)),
    }
}

/// The outcome as characters.
pub open spec fn outcome_view(r: Result<String, QrReadError>) -> Result<Seq<char>, QrReadError> {
    match r {
        Ok(s) => Ok(s@),
        Err(e) => Err(e),
    }
}

/// Turns the first grid's decode result into the outcome.
pub fn first_grid_text(result: Option<Result<String, DecodeFailure>>) -> (r: Result<String, QrReadError>)
    ensures
        outcome_view(r) == first_grid_outcome(result_view(result)),
{
    match result {
        None => Err(QrReadError::NotFound),
        Some(Ok(s)) => Ok(s),
        Some(Err(e)) => Err(QrReadError::Decode(e)),
    }
}

} // verus!
