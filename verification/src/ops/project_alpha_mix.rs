//! Shape of the alpha-mixed projection `y = alpha * P(x) + (1 - alpha) * x` onto the span
//! of `rank` basis rows of `dim` components.
use vstd::prelude::*;

verus! {

/// Shape of a projection call: `rank` basis rows of `dim` components.
#[derive(Debug, Clone, Copy, PartialEq, Eq, Structural)]
pub struct ProjectAlphaMixShape {
    /// Feature dimensionality of each sample and basis row.
    pub dim: usize,
    /// Number of basis rows (rows may be zero and are then skipped).
    pub rank: usize,
}

} // verus!
