//! Shape of a Kolmogorov-Arnold (KAN) layer: `y[n][j] = sum_i phi_ij(x[n][i])`, each edge
//! function a Chebyshev-CR spline; coefficients are flat `(d_out, d_in, cheb_k)`.
use vstd::prelude::*;

verus! {

/// Shape of a KAN layer.
#[derive(Debug, Clone, Copy)]
pub struct KanConfig {
    /// Input feature count.
    pub d_in: usize,
    /// Output feature count.
    pub d_out: usize,
    /// Catmull-Rom control points (>= 4).
    pub grid: usize,
    /// Chebyshev order.
    pub cheb_k: usize,
}

impl KanConfig {
    /// Construct a layer shape: `grid >= 4`, `cheb_k >= 1` and both dimensions positive.
    pub fn new(d_in: usize, d_out: usize, grid: usize, cheb_k: usize) -> (c: Self)
        requires
            grid >= 4,
            cheb_k >= 1,
            d_in >= 1,
            d_out >= 1,
        ensures
            c.d_in == d_in,
            c.d_out == d_out,
            c.grid == grid,
            c.cheb_k == cheb_k,
    {
        KanConfig { d_in, d_out, grid, cheb_k }
    }

    /// Coefficients per output, `d_in * cheb_k`.
    pub fn block(&self) -> (r: usize)
        requires
            self.d_in * self.cheb_k <= usize::MAX,
        ensures
            r == self.d_in * self.cheb_k,
    {
        self.d_in * self.cheb_k
    }
}

} // verus!
