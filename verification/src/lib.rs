//! UTF64: a fixed-width text encoding that stores each Unicode scalar value in
//! exactly one 64-bit unit.
//!
//! The high 32 bits of a unit hold the UTF-8 encoding of one character,
//! left-aligned and zero-padded; the low 32 bits are reserved and must be zero
//! in the current format version. The fixed width buys O(1) character indexing
//! at the cost of 8 bytes per character.
//!
//! Validation policy: per-character iteration applies the same strict
//! per-unit checks as whole-container decoding (reserved bits, leading-byte
//! classification, UTF-8 well-formedness of the byte run), so the two paths
//! accept and reject exactly the same containers, which is proved in
//! `codec::lemma_iteration_decode_consistent`. One quirk follows from the
//! leading-byte rule: a NUL character encodes to a unit whose leading payload
//! byte is zero, which decoding rejects as `InvalidUtf64`, so only NUL-free
//! text round-trips.

pub mod codec;
pub mod error;
pub mod string64;

pub use error::Utf64Error;
pub use string64::IntoIter;
pub use string64::Iter;
pub use string64::String64;
