//! What can go wrong when a version in a text is bumped.

use vstd::prelude::*;

verus! {

/// Why no bumped text was produced.
#[derive(Debug, Clone, Copy, PartialEq, Eq, Structural)]
pub enum Error {
    /// The searched text holds fewer version patterns than the requested
    /// occurrence needs, or has no line of the requested number.
    NoSemverFound,
    /// The selected match does not consist of exactly three dot-separated
    /// segments; the number it has is carried along.
    InvalidSegmentCount(usize),
    /// A segment of the selected match is not a decimal number that fits
    /// in sixteen bits.
    ParseError,
    /// The number to bump is already `u16::MAX`.
    Overflow,
    /// The version pattern was not accepted by the pattern compiler.
    InvalidPattern,
}

impl From<crate::version::Error> for Error {
    fn from(e: crate::version::Error) -> (r: Error) {
        match e {
            crate::version::Error::InvalidSegmentCount(n) => Error::InvalidSegmentCount(n),
            crate::version::Error::ParseError => Error::ParseError,
        }
    }
}

impl vstd::std_specs::convert::FromSpecImpl<crate::version::Error> for Error {
    open spec fn obeys_from_spec() -> bool {
        true
    }

    open spec fn from_spec(e: crate::version::Error) -> Error {
        match e {
            crate::version::Error::InvalidSegmentCount(n) => Error::InvalidSegmentCount(n),
            crate::version::Error::ParseError => Error::ParseError,
        }
    }
}

} // verus!
