//! The ways in which sampling can fail.

use vstd::prelude::*;

verus! {

/// Why a sampler could not be built, or why it stopped.
#[derive(Clone, Copy, Debug, PartialEq, Eq, Structural)]
pub enum TimelapseError {
    /// The threshold is negative, or it is not below the increment.
    InvalidThreshold,
    /// An input value is smaller than the value before it.
    Unsorted,
}

} // verus!
