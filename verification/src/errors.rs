//! The library's error type.

use vstd::prelude::*;

verus! {

/// Result alias used throughout the library.
pub type Result<T> = core::result::Result<T, Error>;

/// Errors surfaced by the library.
///
/// `MissingData`, `InvalidFile` and `InvalidDatetime` are
/// input/precondition errors: they abort a run before any request is
/// planned.  `Decode` marks a response body that does not match the
/// expected wire schema; it is never fatal and demotes to a per-sub-range
/// failure.
#[derive(Clone, Copy, Debug, PartialEq, Eq, Structural)]
pub enum Error {
    /// A summary was asked of an empty record set.
    MissingData,
    /// A persisted file was not decodable under any known record codec.
    InvalidFile,
    /// A datetime was out of order or out of the representable range.
    InvalidDatetime,
    /// A response body did not match the expected wire schema.
    Decode,
}

impl Error {
    /// A short text for operator-facing reporting.
    pub fn message(&self) -> (r: &'static str)
        ensures
            r@ == spec_error_message(*self),
    {
        match self {
            Error::MissingData => "Check the first/last kline data.",
            Error::InvalidFile => "Unable to read you input file. Make sure it is json kline valid data.",
            Error::InvalidDatetime => "Invalid given datetime.",
            Error::Decode => "Unable to decode the response body as kline data.",
        }
    }
}

/// The text `Error::message` returns for each variant.
pub open spec fn spec_error_message(e: Error) -> Seq<char> {
    match e {
        Error::MissingData => "Check the first/last kline data."@,
        Error::InvalidFile => "Unable to read you input file. Make sure it is json kline valid data."@,
        Error::InvalidDatetime => "Invalid given datetime."@,
        Error::Decode => "Unable to decode the response body as kline data."@,
    }
}

} // verus!
