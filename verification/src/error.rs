//! The ways in which obfuscating or reconstructing a literal can fail.

use vstd::prelude::*;

verus! {

/// Why a literal was refused, or why a buffer could not be turned back into a value.
#[derive(Clone, Copy, Debug, PartialEq, Eq, Structural)]
pub enum Error {
    /// The literal has no recognized form.
    ParseError,
    /// An integer outside the range of a signed machine word, or a float
    /// that no 64-bit double stands for.
    RangeError,
    /// A minus sign in front of a literal that is not a number.
    TypeMismatchError,
    /// Included text that is not valid UTF-8. A file that is missing or
    /// cannot be read is reported by the caller that reads it.
    FileError,
    /// The length of a buffer differs from the length that its shape records.
    ShapeInvariantViolation,
    /// Bytes that are no legal value of the kind that the shape records:
    /// ill-formed UTF-8, a code point that is no Unicode scalar value, or a
    /// nul-terminated string without its single terminator.
    InvalidEncoding,
}

/// A result with the value it holds, if any, replaced by its view.
pub open spec fn viewed<T: View>(result: Result<T, Error>) -> Result<T::V, Error> {
    match result {
        Ok(value) => Ok(value@),
        Err(e) => Err(e),
    }
}

} // verus!
