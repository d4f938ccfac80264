//! Index logic of the Kochanek-Bartels (tension/continuity/bias) spline.
use vstd::prelude::*;
use crate::ops::catmull_rom::spec_control_indices;

verus! {

/// The four control points read by segment `i` of a `grid`-point spline, clamped into range.
pub fn control_indices(i: usize, grid: usize) -> (r: [usize; 4])
    requires
        grid >= 1,
        i + 2 <= usize::MAX,
    ensures
        forall|k: int| 0 <= k < 4 ==> r@[k] == #[trigger] spec_control_indices(i as int, grid as int)[k],
        forall|k: int| 0 <= k < 4 ==> #[trigger] r@[k] < grid,
{
    crate::ops::catmull_rom::cr_control_indices(i, grid)
}

/// Offset of the raw `(t, c, b)` triple of channel `ch`, grid point `g`: `(ch*grid + g)*3`.
pub fn base_tcb(ch: usize, g: usize, grid: usize) -> (r: usize)
    requires
        (ch * grid + g) * 3 <= usize::MAX,
    ensures
        r == (ch * grid + g) * 3,
{
    proof {
        assert(ch * grid <= (ch * grid + g) * 3) by (nonlinear_arith)
            requires
                g >= 0,
                ch * grid >= 0,
        ;
    }
    (ch * grid + g) * 3
}

} // verus!
