//! The errors of the codec.
use vstd::prelude::*;

verus! {

/// Why one field could not be read.
#[derive(Clone, Copy, Debug, PartialEq, Eq, Structural)]
pub enum FieldError {
    /// The length prefix is short, not made of digits, or above the maximum.
    Length,
    /// The value bytes are fewer than declared, or not valid for the encoding.
    Encoding,
    /// The buffer ends before the declared end of the value.
    Truncated,
}

/// Why a whole message could not be read or written; each variant says
/// which stage or field failed.
#[derive(Clone, Copy, Debug, PartialEq, Eq, Structural)]
pub enum CoreError {
    /// The MTI could not be read.
    Mti(FieldError),
    /// The bitmap is truncated or holds characters that are not hex digits.
    Bitmap,
    /// A bit is set for a field number that the message spec does not know.
    UnknownField(u8),
    /// The field with this number could not be read.
    Field(u8, FieldError),
    /// A value is present for a field number that the message spec does not know.
    FieldNotFound(u8),
    /// A value cannot be written under its field spec.
    InvalidValue(u8),
}

} // verus!
