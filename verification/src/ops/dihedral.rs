//! Dihedral rotation groups used to steer geometric descriptors.
use vstd::prelude::*;

verus! {

/// A dihedral group `D_n`: `n` rotations, plus `n` reflections when `reflect`.
#[derive(Debug, Clone, Copy)]
pub struct DihedralGroup {
    /// Rotation order `n >= 1`.
    pub n: usize,
    /// Include the reflection coset (full `D_n`) when true; cyclic `C_n` when false.
    pub reflect: bool,
}

impl DihedralGroup {
    /// Number of elements of the group described by `n` and `reflect`.
    pub open spec fn spec_order(self) -> int {
        if self.reflect { 2 * self.n } else { self.n as int }
    }

    /// Construct `D_n` (or `C_n` when `!reflect`). The order `n` must be positive.
    pub fn new(n: usize, reflect: bool) -> (g: Self)
        requires
            n >= 1,
        ensures
            g.n == n,
            g.reflect == reflect,
    {
        DihedralGroup { n, reflect }
    }

    /// Group order `|G|`: `n` for `C_n`, `2n` for `D_n`.
    pub fn order(&self) -> (r: usize)
        requires
            self.spec_order() <= usize::MAX,
        ensures
            r == self.spec_order(),
    {
        self.n * if self.reflect { 2 } else { 1 }
    }
}

} // verus!
