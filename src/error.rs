//! The ways an operation of the codec can fail.

use vstd::prelude::*;

verus! {

/// Why an operation failed. Every failure is returned to the caller whole:
/// no partial result comes with it.
#[derive(Clone, Copy, Debug, PartialEq, Eq, Structural)]
pub enum CodecError {
    /// A serialized buffer ends before a length it declares, or holds a
    /// frequency model that does not describe a decodable stream.
    FormatError,
    /// A decoded symbol refers past the end of the dictionary.
    CorruptReferenceError,
    /// The input has too many symbols for the coder's 24-bit precision.
    PrecisionOverflowError,
}

} // verus!
