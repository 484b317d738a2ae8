use vstd::prelude::*;

verus! {

/// Why an encode or a decode call failed.
#[derive(Debug, Clone, Copy, PartialEq, Eq, Structural)]
pub enum Error {
    /// The source ran out before the value was complete.
    UnexpectedEof,
    /// The bytes are there but break a value constraint: a boolean byte
    /// other than `0x00` or `0x01`.
    InvalidEncoding,
    /// The value has no encoding: a length over `u32::MAX`, or a character
    /// beyond the single-byte range.
    Unencodable,
}

impl Error {
    /// A short description of the failure.
    pub fn message(&self) -> &'static str {
        match self {
            Error::UnexpectedEof => "unexpected end of input",
            Error::InvalidEncoding => "deserialize bool error: invalid bool value",
            Error::Unencodable => "value has no encoding in the wire format",
        }
    }
}

} // verus!
