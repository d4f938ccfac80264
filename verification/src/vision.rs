//! Phase-pool feature kinds of the vision front-end.
use vstd::prelude::*;

verus! {

/// Which phase-pool feature to build from an orientation histogram.
#[derive(Clone, Copy)]
pub enum PhaseFeature {
    /// The histogram itself: rotation-covariant (a floor baseline).
    Raw,
    /// `|DFT(h)|_{0..b/2}`: rotation-invariant (circular-shift-invariant magnitudes).
    Dft,
    /// `|DFT(h)|` plus the phase entropy `H(h)`: invariant, plus the nonlinear entropy feature.
    DftEntropy,
}

/// Feature dimension of one histogram of `b` bins under `mode`: `b`, `b/2 + 1` or `b/2 + 2`.
pub fn phase_feature_dim(b: usize, mode: PhaseFeature) -> (r: usize)
    ensures
        r == match mode {
            PhaseFeature::Raw => b as int,
            PhaseFeature::Dft => b / 2 + 1,
            PhaseFeature::DftEntropy => b / 2 + 2,
        },
{
    match mode {
        PhaseFeature::Raw => b,
        PhaseFeature::Dft => b / 2 + 1,
        PhaseFeature::DftEntropy => b / 2 + 2,
    }
}

} // verus!
