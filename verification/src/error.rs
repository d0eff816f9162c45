//! The ways in which an operation of this library is refused.

use vstd::prelude::*;

verus! {

/// Why an operation was refused.
#[derive(Clone, Copy, Debug, PartialEq, Eq, Structural)]
pub enum Error {
    /// A substitution rule was given an empty pattern.
    InvalidRule,
    /// Text cannot be written in, or bytes cannot be read as, the engine's
    /// encoding.
    EncodingError,
}

} // verus!
