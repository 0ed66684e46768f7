//! Encoding and decoding of COBS (Consistent Overhead Byte Stuffing) and of its variant COBS/R.
//!
//! COBS turns any byte sequence into one that holds no zero byte, so that a zero byte can
//! delimit frames in a byte stream. COBS/R often saves the one byte of overhead that COBS
//! always adds, by letting the final data byte stand in for the final length code.
//!
//! The module `model` states both encodings and both decodings as mathematical functions on
//! byte sequences, and proves the laws that relate them. The modules `cobs` and `cobsr` hold
//! the executable codecs, each proved to compute exactly those functions.

use vstd::prelude::*;

pub mod model;

pub mod source;

pub mod cobs;

pub mod cobsr;

verus! {

/// Errors that can occur during COBS encoding and decoding.
#[derive(Debug, PartialEq, Eq, Clone, Copy, Structural)]
pub enum Error {
    /// The caller's output buffer is too small for the output data.
    OutputBufferTooSmall,
    /// A zero byte was found in encoded input, where none may stand.
    ZeroInEncodedData,
    /// A length code claims more bytes than the encoded input holds (COBS only).
    TruncatedEncodedData,
}

impl Error {
    /// A short description of the error.
    pub fn message(&self) -> (r: &'static str)
        ensures
            *self == Error::OutputBufferTooSmall ==> r@ == "Output buffer is too small"@,
            *self == Error::ZeroInEncodedData ==> r@ == "Zero found in encoded input data"@,
            *self == Error::TruncatedEncodedData ==> r@ == "Unexpected end of encoded input data"@,
    {
        match self {
            Error::OutputBufferTooSmall => "Output buffer is too small",
            Error::ZeroInEncodedData => "Zero found in encoded input data",
            Error::TruncatedEncodedData => "Unexpected end of encoded input data",
        }
    }
}

/// The result of the encoding and decoding functions.
pub type Result<T> = core::result::Result<T, Error>;

} // verus!
