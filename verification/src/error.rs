//! Errors reported by UTF64 decoding.

use vstd::prelude::*;

verus! {

/// Errors that can occur while decoding UTF64 data.
///
/// Construction from already-valid text never fails; only the decode
/// direction (and raw-unit data supplied from outside) can produce one of
/// these.
#[derive(Clone, Copy, Debug, PartialEq, Eq, Structural)]
pub enum Utf64Error {
    /// The bytes accumulated from the units do not form valid UTF-8.
    InvalidUtf8,
    /// A unit's leading payload byte is zero, so no UTF-8 sequence length
    /// can be classified.
    InvalidUtf64,
    /// A unit's reserved bits (the low 32) are not zero, which signals
    /// corruption or a future format revision.
    NonZeroReservedBits,
}

impl Utf64Error {
    /// A short human-readable description of the error.
    pub fn message(&self) -> (r: &'static str)
        ensures
            *self == Utf64Error::InvalidUtf8 ==> r@ == "invalid UTF-8 data"@,
            *self == Utf64Error::InvalidUtf64 ==> r@ == "invalid UTF64 encoding"@,
            *self == Utf64Error::NonZeroReservedBits ==> r@ == "reserved bits must be zero in UTF64 v1.0"@,
    {
        match self {
            Utf64Error::InvalidUtf8 => "invalid UTF-8 data",
            Utf64Error::InvalidUtf64 => "invalid UTF64 encoding",
            Utf64Error::NonZeroReservedBits => "reserved bits must be zero in UTF64 v1.0",
        }
    }
}

} // verus!
