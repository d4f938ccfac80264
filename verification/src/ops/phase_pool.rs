//! Dimension of the rotation-invariant phase-pool descriptor.
use vstd::prelude::*;

verus! {

/// Feature dimension of one phase-pool descriptor: `|DFT(h)|_{0..b/2}`, `b/2 + 1` magnitudes.
pub fn phase_pool_dim(b: usize) -> (r: usize)
    ensures
        r == b / 2 + 1,
{
    b / 2 + 1
}

} // verus!
