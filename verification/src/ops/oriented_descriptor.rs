//! Dimension of the oriented descriptor: `|DFT(h)|_{0..b/2}` plus a coherence term.
use vstd::prelude::*;

verus! {

/// Feature dim: `|DFT(h)|_{0..b/2}` (`b/2+1`) plus coherence (`1`).
pub fn oriented_dim(b: usize) -> (r: usize)
    ensures
        r == b / 2 + 2,
{
    b / 2 + 2
}

} // verus!
