//! Dimension of the rotor-spike descriptor: one spike per preferred orientation.
use vstd::prelude::*;

verus! {

/// Output feature dim: one spike per preferred orientation.
pub fn rotor_spike_dim(k: usize) -> (r: usize)
    ensures
        r == k,
{
    k
}

} // verus!
