//! The ways in which decoding, and the averaging that follows it, can fail.

use vstd::prelude::*;

verus! {

/// A fatal failure. No operation of this crate recovers from one: the
/// aggregate is only meaningful if every record of the document was decoded.
#[derive(Clone, Copy, Debug, PartialEq, Eq, Structural)]
pub enum DecodeError {
    /// The input ended where more bytes were required. `position` is the
    /// offset at which it ended.
    IOError { position: u64 },
    /// The bytes at `position` are not what the format requires there: a
    /// structural literal did not match, or a field name is unknown or
    /// repeated. `position` is the offset of the first byte of the literal
    /// or field name.
    SchemaViolation { position: u64 },
    /// The numeral that starts at `position` is not a decimal literal, or is
    /// longer than a numeral may be.
    FloatParseError { position: u64 },
    /// No record was decoded, so there is no average to report.
    EmptyInputError,
}

} // verus!
