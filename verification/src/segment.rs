//! The three numbers of a version that can be bumped.

use vstd::prelude::*;

verus! {

/// Selects which number of a [`crate::Version`] a bump increments.
#[derive(Debug, Clone, Copy, PartialEq, Eq, Structural)]
pub enum Segment {
    /// The third number. A bump changes nothing else.
    Patch,
    /// The second number. A bump sets the patch number to zero.
    Minor,
    /// The first number. A bump sets the minor and patch numbers to zero.
    Major,
}

} // verus!
