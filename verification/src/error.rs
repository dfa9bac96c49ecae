//! Errors of the interpolation builders.

use vstd::prelude::*;

verus! {

/// Why an interpolant could not be built.
#[derive(Debug, PartialEq, Eq, Clone, Copy, Structural)]
pub enum InterpolationError {
    /// There is no point to interpolate.
    NoPoints,
}

} // verus!
