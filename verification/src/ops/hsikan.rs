//! Configuration and incidence of the Highway-SignedKAN (HSiKAN) layer: a sign-conditioned
//! aggregation over each signed hyperedge with inner and outer spline activations.
//!
//! Every hyperedge has `arity` vertices with signs `+1`/`-1`; sign branch `0` aggregates
//! the `+1` vertices and branch `1` the `-1` vertices. Learnable spline parameters are
//! packed per branch; their length depends on the spline basis.
use vstd::prelude::*;

verus! {

/// Which univariate basis the inner/outer HSiKAN splines use.
#[derive(Debug, Clone, Copy, PartialEq, Eq, Structural)]
pub enum SplineKind {
    /// Chebyshev-parametrised Catmull-Rom: `(d, cheb_k)` coefficients per branch.
    ChebyshevCr,
    /// Kochanek-Bartels spline: `(d, grid)` control points then `(d, grid, 3)` raw TCB
    /// tangents per branch.
    KochanekBartels,
}

/// Shape + architecture of one HSiKAN layer evaluation.
#[derive(Debug, Clone, Copy)]
pub struct HsikanConfig {
    /// Number of hyperedges `T`.
    pub n_edges: usize,
    /// Vertices per hyperedge `k` (uniform arity per call).
    pub arity: usize,
    /// Hidden dimension `d`.
    pub hidden: usize,
    /// Sign branches `S` in `{1, 2}`.
    pub n_branches: usize,
    /// Catmull-Rom control points `G` (>= 4).
    pub grid: usize,
    /// Chebyshev order `k`.
    pub cheb_k: usize,
    /// Enable the highway skip gate on the inner spline.
    pub use_highway: bool,
    /// Univariate basis for the inner + outer spline activations.
    pub spline_kind: SplineKind,
}

impl HsikanConfig {
    /// Packed learnable length of one sign branch's spline parameters.
    pub open spec fn spec_branch_len(self) -> int {
        match self.spline_kind {
            SplineKind::ChebyshevCr => self.hidden * self.cheb_k,
            SplineKind::KochanekBartels => self.hidden * self.grid * 4,
        }
    }

    /// Construct a config with the Chebyshev-CR basis: `grid >= 4`, `cheb_k >= 1`,
    /// `hidden >= 1`, `arity >= 1` and `n_branches` 1 or 2.
    pub fn new(
        n_edges: usize,
        arity: usize,
        hidden: usize,
        n_branches: usize,
        grid: usize,
        cheb_k: usize,
        use_highway: bool,
    ) -> (c: Self)
        requires
            grid >= 4,
            cheb_k >= 1,
            hidden >= 1,
            arity >= 1,
            n_branches == 1 || n_branches == 2,
        ensures
            c.n_edges == n_edges,
            c.arity == arity,
            c.hidden == hidden,
            c.n_branches == n_branches,
            c.grid == grid,
            c.cheb_k == cheb_k,
            c.use_highway == use_highway,
            c.spline_kind == SplineKind::ChebyshevCr,
    {
        HsikanConfig {
            n_edges,
            arity,
            hidden,
            n_branches,
            grid,
            cheb_k,
            use_highway,
            spline_kind: SplineKind::ChebyshevCr,
        }
    }

    /// Select the spline basis, leaving every other field intact.
    pub fn with_spline_kind(self, spline_kind: SplineKind) -> (c: Self)
        ensures
            c == (HsikanConfig { spline_kind, ..self }),
    {
        let mut c = self;
        c.spline_kind = spline_kind;
        c
    }

    /// Incidence rows `T * k`.
    pub fn n_rows(&self) -> (r: usize)
        requires
            self.n_edges * self.arity <= usize::MAX,
        ensures
            r == self.n_edges * self.arity,
    {
        self.n_edges * self.arity
    }

    /// Packed learnable length of one sign branch's spline parameters: `d * cheb_k` for
    /// Chebyshev-CR, `d * grid * 4` for Kochanek-Bartels.
    pub fn branch_len(&self) -> (r: usize)
        requires
            self.spec_branch_len() <= usize::MAX,
            self.hidden * self.grid <= usize::MAX,
        ensures
            r == self.spec_branch_len(),
    {
        match self.spline_kind {
            SplineKind::ChebyshevCr => self.hidden * self.cheb_k,
            SplineKind::KochanekBartels => self.hidden * self.grid * 4,
        }
    }
}

/// Hyperedge incidence (borrowed flat buffers).
#[derive(Debug, Clone, Copy)]
pub struct HsikanEdges<'a> {
    /// Vertex ids per edge, flat `(T, k)`.
    pub vertices: &'a [u32],
    /// Signs per edge, flat `(T, k)`, each `+1` or `-1`.
    pub signs: &'a [i8],
}

/// Branch `s` to its sign value: branch `0` is `+1`, every other branch `-1`.
pub fn sign_value(branch: usize) -> (r: i8)
    ensures
        r == if branch == 0 {
            1i8
        } else {
            -1i8
        },
{
    if branch == 0 {
        1
    } else {
        -1
    }
}

/// The chunks `[start, end)` of the streaming forward over `t` hyperedges in batches of
/// `chunk_t` (clamped to at least 1): consecutive, each `chunk_t` long but the last,
/// covering `0..t` exactly.
pub fn chunk_ranges(t: usize, chunk_t: usize) -> (r: Vec<(usize, usize)>)
    ensures
        t == 0 ==> r@.len() == 0,
        t > 0 ==> r@.len() >= 1 && r@[0].0 == 0 && r@[r@.len() - 1].1 == t,
        forall|j: int| 0 <= j < r@.len() ==> (#[trigger] r@[j]).0 < r@[j].1 <= t,
        forall|j: int|
            0 <= j < r@.len() ==> (#[trigger] r@[j]).1 - r@[j].0 == if chunk_t == 0 {
                1
            } else {
                chunk_t as int
            } || r@[j].1 == t,
        forall|j: int| 0 <= j < r@.len() - 1 ==> (#[trigger] r@[j]).1 == r@[j + 1].0 && r@[j].1 - r@[j].0
            == if chunk_t == 0 {
            1
        } else {
            chunk_t as int
        },
{
    let step = if chunk_t == 0 {
        1
    } else {
        chunk_t
    };
    let mut out: Vec<(usize, usize)> = Vec::new();
    let mut start: usize = 0;
    while start < t
        invariant
            step >= 1,
            step == if chunk_t == 0 {
                1
            } else {
                chunk_t
            },
            start <= t,
            out@.len() == 0 ==> start == 0,
            out@.len() > 0 ==> out@[0].0 == 0 && out@[out@.len() - 1].1 == start,
            forall|j: int| 0 <= j < out@.len() ==> (#[trigger] out@[j]).0 < out@[j].1 <= start,
            forall|j: int|
                0 <= j < out@.len() ==> (#[trigger] out@[j]).1 - out@[j].0 == step || out@[j].1 == t,
            forall|j: int|
                0 <= j < out@.len() - 1 ==> (#[trigger] out@[j]).1 == out@[j + 1].0 && out@[j].1 - out@[j].0
                    == step,
        decreases t - start,
    {
        let end = if t - start > step {
            start + step
        } else {
            t
        };
        let ghost before = out@;
        out.push((start, end));
        proof {
            assert forall|j: int| 0 <= j < out@.len() - 1 implies (#[trigger] out@[j]).1 == out@[j + 1].0
                && out@[j].1 - out@[j].0 == step by {
                assert(out@[j] == before[j]);
                if j < before.len() - 1 {
                    assert(out@[j + 1] == before[j + 1]);
                } else {
                    assert(before[j].1 - before[j].0 == step || before[j].1 == t);
                }
            }
        }
        start = end;
    }
    out
}

} // verus!
