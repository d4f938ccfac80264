//! Index logic of the Catmull-Rom activation: the four control points a segment reads.
use vstd::prelude::*;

verus! {

/// The control points `i-1, i, i+1, i+2` of segment `i`, clamped to `[0, grid-1]`.
pub open spec fn spec_control_indices(i: int, grid: int) -> Seq<int> {
    let c = |v: int| if v < 0 { 0 } else if v > grid - 1 { grid - 1 } else { v };
    seq![c(i - 1), c(i), c(i + 1), c(i + 2)]
}

/// The four control points read by segment `i` of a `grid`-point spline, clamped into range.
pub fn cr_control_indices(i: usize, grid: usize) -> (r: [usize; 4])
    requires
        grid >= 1,
        i + 2 <= usize::MAX,
    ensures
        forall|k: int| 0 <= k < 4 ==> r@[k] == #[trigger] spec_control_indices(i as int, grid as int)[k],
        forall|k: int| 0 <= k < 4 ==> #[trigger] r@[k] < grid,
{
    let g = grid - 1;
    let a = if i == 0 { 0 } else { i - 1 };
    let r = [
        if a < g { a } else { g },
        if i < g { i } else { g },
        if i + 1 < g { i + 1 } else { g },
        if i + 2 < g { i + 2 } else { g },
    ];
    assert(r@ =~= seq![r[0], r[1], r[2], r[3]]);
    r
}

} // verus!
