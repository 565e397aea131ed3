//! The error type shared by the decoder and the encoder.

use vstd::prelude::*;

verus! {

/// `std::string::FromUtf8Error` is the error `String::from_utf8` returns when
/// the bytes are not valid UTF-8; it is carried through unchanged.
#[verifier::external_type_specification]
#[verifier::external_body]
pub struct ExFromUtf8Error(std::string::FromUtf8Error);

/// What can go wrong while decoding or encoding one LTSV line.
#[derive(Debug)]
pub enum LtsvError {
    /// The line is not well-formed LTSV, or the value handed to the encoder
    /// has a shape, key kind or value kind the format cannot carry.
    InvalidInput(String),
    /// A byte-sequence key or value is not valid UTF-8 text.
    FromUtf8Error(std::string::FromUtf8Error),
}

pub type LtsvResult<T> = Result<T, LtsvError>;

impl LtsvError {
    /// A human-readable description of the error.
    pub fn message(&self) -> (r: String)
        ensures
            self matches LtsvError::InvalidInput(m) ==> r@ == m@,
    {
        match self {
            LtsvError::InvalidInput(m) => m.clone(),
            LtsvError::FromUtf8Error(_) => "bytes are not valid utf-8 text".to_owned(),
        }
    }
}

} // verus!
