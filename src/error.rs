use vstd::prelude::*;

verus! {

/// Why a byte string is not a well-formed token (or part of one).
#[derive(Clone, Copy, Debug, PartialEq, Eq, Structural)]
pub enum DecodeError {
    /// Fewer bytes remain than a fixed-size field needs.
    ShortBuffer,
    /// A module or method name is not UTF-8.
    InvalidUtf8,
    /// The version tag is not 0.
    UnsupportedVersion,
    /// An embedded constraint program was rejected by its interpreter.
    InvalidConstraints,
}

} // verus!
