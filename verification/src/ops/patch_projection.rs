//! N-dimensional patch projection geometry (a rank-general patch-embed).
//!
//! An input laid out as a `k`-D grid (`dims`) of `channels`-vectors is cut into
//! non-overlapping patches (`patch` size per axis); each patch is flattened to
//! `patch_vol = prod(patch) * channels` values. This module owns the fixed gather
//! that performs the cut: patch `q`, slot `v` reads input offset `map[q][v]`.
//! The gather is a partition: every input offset is read by exactly one slot.
//!
//! Layout: one sample is flat `prod(dims) * channels`, row-major over `dims`
//! with `channels` innermost per cell.
use vstd::prelude::*;
use vstd::arithmetic::div_mod::{lemma_fundamental_div_mod, lemma_fundamental_div_mod_converse};

verus! {

/// Product of a sequence of sizes (`1` for the empty sequence).
pub open spec fn prod(s: Seq<usize>) -> int
    decreases s.len(),
{
    if s.len() == 0 {
        1
    } else {
        prod(s.drop_last()) * s.last()
    }
}

/// Row-major (last axis fastest) flat index of the digits `d` against `radix`.
pub open spec fn ravel(d: Seq<usize>, radix: Seq<usize>) -> int
    decreases radix.len(),
{
    if radix.len() == 0 {
        0
    } else {
        ravel(d.take(radix.len() - 1), radix.drop_last()) * radix.last() + d[radix.len() - 1]
    }
}

/// Row-major digits of `flat` against `radix` (the leading digit wraps around).
pub open spec fn unravel_spec(flat: int, radix: Seq<usize>) -> Seq<usize>
    decreases radix.len(),
{
    if radix.len() == 0 {
        Seq::empty()
    } else {
        unravel_spec(flat / (radix.last() as int), radix.drop_last()).push(
            (flat % (radix.last() as int)) as usize,
        )
    }
}

/// Every entry of `s` is at least one.
pub open spec fn all_positive(s: Seq<usize>) -> bool {
    forall|i: int| 0 <= i < s.len() ==> #[trigger] s[i] >= 1
}

/// `d` is a digit vector for `radix`.
pub open spec fn digits_ok(d: Seq<usize>, radix: Seq<usize>) -> bool {
    &&& d.len() == radix.len()
    &&& forall|i: int| 0 <= i < d.len() ==> #[trigger] d[i] < radix[i]
}

proof fn lemma_prod_positive(s: Seq<usize>)
    requires
        all_positive(s),
    ensures
        prod(s) >= 1,
    decreases s.len(),
{
    if s.len() > 0 {
        let t = s.drop_last();
        assert(all_positive(t));
        lemma_prod_positive(t);
        let a = prod(t);
        let b = s.last() as int;
        assert(s[s.len() - 1] >= 1);
        assert(a * b >= 1) by (nonlinear_arith)
            requires
                a >= 1,
                b >= 1,
        ;
    }
}

/// A prefix of positive sizes has a product no larger than the whole.
proof fn lemma_prod_take_le(s: Seq<usize>, i: int)
    requires
        all_positive(s),
        0 <= i <= s.len(),
    ensures
        1 <= prod(s.take(i)) <= prod(s),
    decreases s.len() - i,
{
    if i == s.len() {
        assert(s.take(i) =~= s);
        lemma_prod_positive(s);
    } else {
        lemma_prod_take_le(s, i + 1);
        let t = s.take(i + 1);
        assert(t.drop_last() =~= s.take(i));
        assert(all_positive(s.take(i)));
        lemma_prod_positive(s.take(i));
        let a = prod(s.take(i));
        let b = s[i] as int;
        assert(t.last() == s[i]);
        assert(prod(t) == a * b);
        assert(a <= a * b) by (nonlinear_arith)
            requires
                a >= 1,
                b >= 1,
        ;
    }
}

/// Unfolding of `prod` on a prefix.
proof fn lemma_prod_take_step(s: Seq<usize>, i: int)
    requires
        0 <= i < s.len(),
    ensures
        prod(s.take(i + 1)) == prod(s.take(i)) * s[i],
{
    assert(s.take(i + 1).drop_last() =~= s.take(i));
}

/// Unfolding of `ravel` on a prefix.
proof fn lemma_ravel_take_step(d: Seq<usize>, s: Seq<usize>, i: int)
    requires
        0 <= i < s.len(),
        d.len() == s.len(),
    ensures
        ravel(d.take(i + 1), s.take(i + 1)) == ravel(d.take(i), s.take(i)) * s[i] + d[i],
{
    assert(s.take(i + 1).drop_last() =~= s.take(i));
    assert(d.take(i + 1).take(i) =~= d.take(i));
}

/// Digits within range ravel to an index within range.
proof fn lemma_ravel_bound(d: Seq<usize>, r: Seq<usize>)
    requires
        digits_ok(d, r),
    ensures
        0 <= ravel(d, r) < prod(r),
    decreases r.len(),
{
    if r.len() > 0 {
        let n = r.len() - 1;
        let d2 = d.take(n);
        let r2 = r.drop_last();
        assert(digits_ok(d2, r2));
        lemma_ravel_bound(d2, r2);
        let a = ravel(d2, r2);
        let p = prod(r2);
        let b = r.last() as int;
        let x = d[n] as int;
        assert(x < b);
        assert(0 <= a * b + x < p * b) by (nonlinear_arith)
            requires
                0 <= a < p,
                0 <= x < b,
        ;
    }
}

/// Unravelled digits are within range.
proof fn lemma_unravel_digits(f: int, r: Seq<usize>)
    requires
        all_positive(r),
        f >= 0,
    ensures
        digits_ok(unravel_spec(f, r), r),
    decreases r.len(),
{
    if r.len() > 0 {
        let b = r.last() as int;
        assert(r[r.len() - 1] >= 1);
        let r2 = r.drop_last();
        assert(all_positive(r2));
        assert(f / b >= 0) by (nonlinear_arith)
            requires
                f >= 0,
                b >= 1,
        ;
        lemma_unravel_digits(f / b, r2);
        let u = unravel_spec(f, r);
        let u2 = unravel_spec(f / b, r2);
        assert(u == u2.push((f % b) as usize));
        assert forall|i: int| 0 <= i < u.len() implies #[trigger] u[i] < r[i] by {
            if i < r.len() - 1 {
                assert(u[i] == u2[i]);
                assert(r[i] == r2[i]);
            }
        }
    }
}

/// `ravel` inverts `unravel_spec` on in-range indices.
proof fn lemma_ravel_unravel(f: int, r: Seq<usize>)
    requires
        all_positive(r),
        0 <= f < prod(r),
    ensures
        ravel(unravel_spec(f, r), r) == f,
    decreases r.len(),
{
    if r.len() > 0 {
        let b = r.last() as int;
        assert(r[r.len() - 1] >= 1);
        let r2 = r.drop_last();
        assert(all_positive(r2));
        let p = prod(r2);
        lemma_fundamental_div_mod(f, b);
        let q = f / b;
        let m = f % b;
        assert(0 <= q < p && 0 <= m < b) by (nonlinear_arith)
            requires
                0 <= f < p * b,
                b >= 1,
                f == b * q + m,
                0 <= m < b,
        ;
        lemma_ravel_unravel(q, r2);
        lemma_unravel_digits(q, r2);
        let u2 = unravel_spec(q, r2);
        let u = unravel_spec(f, r);
        assert(u == u2.push(m as usize));
        assert(u.take(r.len() - 1) =~= u2);
        assert(ravel(u, r) == ravel(u2, r2) * b + m);
    }
}

/// `unravel_spec` inverts `ravel` on digit vectors within range.
proof fn lemma_unravel_ravel(d: Seq<usize>, r: Seq<usize>)
    requires
        digits_ok(d, r),
    ensures
        unravel_spec(ravel(d, r), r) =~= d,
    decreases r.len(),
{
    if r.len() > 0 {
        let n = r.len() - 1;
        let d2 = d.take(n);
        let r2 = r.drop_last();
        assert(digits_ok(d2, r2));
        lemma_unravel_ravel(d2, r2);
        lemma_ravel_bound(d2, r2);
        let a = ravel(d2, r2);
        let b = r.last() as int;
        let x = d[n] as int;
        assert(x < b);
        lemma_fundamental_div_mod_converse(a * b + x, b, a, x);
        assert(d2.push(d[n]) =~= d);
    }
}

/// `dims[i] / patch[i]`: the patch grid of a config.
pub open spec fn grid_of(dims: Seq<usize>, patch: Seq<usize>) -> Seq<usize> {
    Seq::new(dims.len(), |i: int| (dims[i] / patch[i]) as usize)
}

/// The grid coordinates of patch digits `qm` and in-patch digits `rm`.
pub open spec fn coords_of(qm: Seq<usize>, rm: Seq<usize>, patch: Seq<usize>) -> Seq<usize> {
    Seq::new(patch.len(), |i: int| (qm[i] * patch[i] + rm[i]) as usize)
}

/// Shape of an N-D patch projection.
#[derive(Debug, Clone)]
pub struct PatchConfig {
    /// Spatial grid dims (rank `k`).
    pub dims: Vec<usize>,
    /// Patch size per axis (must divide `dims`).
    pub patch: Vec<usize>,
    /// Channels per grid cell.
    pub channels: usize,
    /// Projection output dim per patch.
    pub proj_dim: usize,
}

/// The structural conditions `PatchConfig::new` checks.
pub open spec fn valid_patch_shape(
    dims: Seq<usize>,
    patch: Seq<usize>,
    channels: usize,
    proj_dim: usize,
) -> bool {
    &&& dims.len() == patch.len()
    &&& dims.len() >= 1
    &&& channels >= 1
    &&& proj_dim >= 1
    &&& forall|i: int|
        0 <= i < dims.len() ==> #[trigger] patch[i] >= 1 && dims[i] >= 1 && dims[i] % patch[i]
            == 0
}

impl PatchConfig {
    /// A valid shape whose flat input length fits a `usize`.
    pub open spec fn wf(&self) -> bool {
        &&& valid_patch_shape(self.dims@, self.patch@, self.channels, self.proj_dim)
        &&& prod(self.dims@) * self.channels <= usize::MAX
    }

    /// Grid cells `prod(dims)`.
    pub open spec fn spec_cell_count(&self) -> int {
        prod(self.dims@)
    }

    /// Patches `prod(dims_i / patch_i)`.
    pub open spec fn spec_n_patches(&self) -> int {
        prod(grid_of(self.dims@, self.patch@))
    }

    /// Flattened patch length `prod(patch) * channels`.
    pub open spec fn spec_patch_vol(&self) -> int {
        prod(self.patch@) * self.channels
    }

    /// Input length of one sample, `prod(dims) * channels`.
    pub open spec fn spec_input_len(&self) -> int {
        prod(self.dims@) * self.channels
    }

    /// The input offset read by slot `v` of patch `q`.
    pub open spec fn spec_cell(&self, q: int, v: int) -> int {
        let c = self.channels as int;
        let grid = grid_of(self.dims@, self.patch@);
        let qm = unravel_spec(q, grid);
        let rm = unravel_spec(v / c, self.patch@);
        ravel(coords_of(qm, rm, self.patch@), self.dims@) * c + v % c
    }

    /// Construct a patch shape. The rank of `dims` and `patch` must agree and be
    /// positive, every patch size must divide its axis, and every dimension is positive.
    pub fn new(dims: Vec<usize>, patch: Vec<usize>, channels: usize, proj_dim: usize) -> (cfg:
        Self)
        requires
            valid_patch_shape(dims@, patch@, channels, proj_dim),
            prod(dims@) * channels <= usize::MAX,
        ensures
            cfg.dims@ == dims@,
            cfg.patch@ == patch@,
            cfg.channels == channels,
            cfg.proj_dim == proj_dim,
            cfg.wf(),
            cfg.spec_n_patches() * cfg.spec_patch_vol() == cfg.spec_cell_count() * channels,
    {
        let cfg = PatchConfig { dims, patch, channels, proj_dim };
        proof {
            lemma_patches_tile(&cfg);
        }
        cfg
    }

    /// Grid cells `prod(dims)`.
    pub fn cell_count(&self) -> (r: usize)
        requires
            self.wf(),
        ensures
            r == self.spec_cell_count(),
    {
        proof {
            lemma_wf_sizes(self);
        }
        product(&self.dims)
    }

    /// Patches `prod(dims_i / patch_i)`.
    pub fn n_patches(&self) -> (r: usize)
        requires
            self.wf(),
        ensures
            r == self.spec_n_patches(),
    {
        proof {
            lemma_wf_sizes(self);
        }
        let grid = self.grid();
        product(&grid)
    }

    /// Flattened patch length `prod(patch) * channels`.
    pub fn patch_vol(&self) -> (r: usize)
        requires
            self.wf(),
        ensures
            r == self.spec_patch_vol(),
    {
        proof {
            lemma_wf_sizes(self);
        }
        product(&self.patch) * self.channels
    }

    /// Input length of one sample, `prod(dims) * channels`.
    pub fn input_len(&self) -> (r: usize)
        requires
            self.wf(),
        ensures
            r == self.spec_input_len(),
    {
        proof {
            lemma_wf_sizes(self);
        }
        self.cell_count() * self.channels
    }

    /// The patch grid `dims_i / patch_i`.
    fn grid(&self) -> (g: Vec<usize>)
        requires
            self.wf(),
        ensures
            g@ == grid_of(self.dims@, self.patch@),
    {
        let k = self.dims.len();
        let mut g: Vec<usize> = Vec::new();
        for i in 0..k
            invariant
                k == self.dims.len(),
                self.wf(),
                g@.len() == i,
                forall|j: int| 0 <= j < i ==> g@[j] == self.dims@[j] / self.patch@[j],
        {
            assert(self.patch@[i as int] >= 1);
            g.push(self.dims[i] / self.patch[i]);
        }
        assert(g@ =~= grid_of(self.dims@, self.patch@));
        g
    }
}

/// The patches tile the grid exactly: `n_patches * patch_vol == cell_count * channels`.
pub proof fn lemma_patches_tile(cfg: &PatchConfig)
    requires
        cfg.wf(),
    ensures
        cfg.spec_n_patches() * cfg.spec_patch_vol() == cfg.spec_cell_count() * cfg.channels,
{
    lemma_wf_sizes(cfg);
    let n = cfg.spec_n_patches();
    let pp = prod(cfg.patch@);
    let c = cfg.channels as int;
    assert(n * (pp * c) == (n * pp) * c) by (nonlinear_arith);
}

/// Size facts that follow from a well-formed config.
proof fn lemma_wf_sizes(cfg: &PatchConfig)
    requires
        cfg.wf(),
    ensures
        all_positive(cfg.dims@),
        all_positive(cfg.patch@),
        all_positive(grid_of(cfg.dims@, cfg.patch@)),
        prod(cfg.dims@) == prod(grid_of(cfg.dims@, cfg.patch@)) * prod(cfg.patch@),
        prod(cfg.dims@) >= 1,
        prod(cfg.patch@) >= 1,
        prod(grid_of(cfg.dims@, cfg.patch@)) >= 1,
        prod(cfg.dims@) <= usize::MAX,
        prod(cfg.patch@) * cfg.channels <= usize::MAX,
        prod(grid_of(cfg.dims@, cfg.patch@)) <= usize::MAX,
        prod(cfg.patch@) <= usize::MAX,
        forall|i: int|
            0 <= i < cfg.dims@.len() ==> #[trigger] grid_of(cfg.dims@, cfg.patch@)[i] * cfg.patch@[i]
                == cfg.dims@[i],
{
    let dims = cfg.dims@;
    let patch = cfg.patch@;
    let grid = grid_of(dims, patch);
    assert forall|i: int| 0 <= i < dims.len() implies #[trigger] dims[i] >= 1 by {
        assert(patch[i] >= 1 && dims[i] >= 1);
    }
    assert forall|i: int| 0 <= i < patch.len() implies #[trigger] patch[i] >= 1 by {
        assert(patch[i] >= 1 && dims[i] >= 1);
    }
    assert forall|i: int| 0 <= i < grid.len() implies #[trigger] grid[i] >= 1 && grid[i] * patch[i]
        == dims[i] by {
        assert(patch[i] >= 1 && dims[i] >= 1 && dims[i] % patch[i] == 0);
        let p = patch[i] as int;
        let d = dims[i] as int;
        lemma_fundamental_div_mod(d, p);
        assert(1 <= d / p <= d && (d / p) * p == d) by (nonlinear_arith)
            requires
                d >= 1,
                p >= 1,
                d == p * (d / p),
        ;
    }
    lemma_prod_split(dims, patch, grid);
    lemma_prod_positive(dims);
    lemma_prod_positive(patch);
    lemma_prod_positive(grid);
    let pd = prod(dims);
    let pp = prod(patch);
    let pg = prod(grid);
    let c = cfg.channels as int;
    assert(pd <= usize::MAX && pp * c <= usize::MAX && pg <= usize::MAX && pp <= usize::MAX)
        by (nonlinear_arith)
        requires
            pd * c <= usize::MAX,
            c >= 1,
            pd == pg * pp,
            pg >= 1,
            pp >= 1,
    ;
}

/// `prod(dims) == prod(grid) * prod(patch)` when `dims[i] == grid[i] * patch[i]`.
proof fn lemma_prod_split(dims: Seq<usize>, patch: Seq<usize>, grid: Seq<usize>)
    requires
        dims.len() == patch.len(),
        grid.len() == dims.len(),
        forall|i: int| 0 <= i < grid.len() ==> #[trigger] grid[i] * patch[i] == dims[i],
    ensures
        prod(dims) == prod(grid) * prod(patch),
    decreases dims.len(),
{
    if dims.len() > 0 {
        let n = dims.len() - 1;
        assert(grid[n] * patch[n] == dims[n]);
        lemma_prod_split(dims.drop_last(), patch.drop_last(), grid.drop_last());
        let a = prod(grid.drop_last());
        let b = prod(patch.drop_last());
        let x = grid[n] as int;
        let y = patch[n] as int;
        assert(a * b * (x * y) == (a * x) * (b * y)) by (nonlinear_arith);
    }
}

/// Product of the entries of `s`, which must fit a `usize`.
fn product(s: &Vec<usize>) -> (r: usize)
    requires
        all_positive(s@),
        prod(s@) <= usize::MAX,
    ensures
        r == prod(s@),
{
    let mut acc: usize = 1;
    let n = s.len();
    for i in 0..n
        invariant
            n == s@.len(),
            all_positive(s@),
            prod(s@) <= usize::MAX,
            acc == prod(s@.take(i as int)),
    {
        proof {
            lemma_prod_take_step(s@, i as int);
            lemma_prod_take_le(s@, i + 1);
        }
        acc = acc * s[i];
    }
    assert(s@.take(n as int) =~= s@);
    acc
}

/// Row-major unravel of `flat` against `radix` (all entries positive).
pub fn unravel(flat: usize, radix: &Vec<usize>) -> (out: Vec<usize>)
    requires
        all_positive(radix@),
    ensures
        out@ == unravel_spec(flat as int, radix@),
{
    let k = radix.len();
    let mut out: Vec<usize> = Vec::new();
    let mut j: usize = 0;
    while j < k
        invariant
            j <= k,
            out@.len() == j,
            forall|t: int| 0 <= t < j ==> out@[t] == 0,
        decreases k - j,
    {
        out.push(0);
        j = j + 1;
    }
    let mut f = flat;
    let mut i = k;
    assert(radix@.take(k as int) =~= radix@);
    assert(out@.subrange(k as int, k as int) =~= Seq::<usize>::empty());
    while i > 0
        invariant
            i <= k,
            k == radix@.len(),
            out@.len() == k,
            all_positive(radix@),
            unravel_spec(flat as int, radix@) =~= unravel_spec(f as int, radix@.take(i as int))
                + out@.subrange(i as int, k as int),
        decreases i,
    {
        let ghost old_out = out@;
        let ghost old_f = f;
        let r = radix[i - 1];
        assert(radix@[i - 1] >= 1);
        out.set(i - 1, f % r);
        f = f / r;
        proof {
            let t = radix@.take(i as int);
            assert(t.drop_last() =~= radix@.take(i - 1));
            assert(t.last() == r);
            assert(unravel_spec(old_f as int, t) == unravel_spec(f as int, radix@.take(i - 1)).push(
                (old_f % r) as usize,
            ));
            assert(out@.subrange(i - 1, k as int) =~= seq![(old_f % r) as usize]
                + old_out.subrange(i as int, k as int));
        }
        i = i - 1;
    }
    assert(radix@.take(0) =~= Seq::<usize>::empty());
    assert(out@.subrange(0, k as int) =~= out@);
    out
}

/// Row-major flat index of `d` against `radix` (Horner form).
fn ravel_exec(d: &Vec<usize>, radix: &Vec<usize>) -> (r: usize)
    requires
        digits_ok(d@, radix@),
        prod(radix@) <= usize::MAX,
    ensures
        r == ravel(d@, radix@),
{
    let k = radix.len();
    let mut acc: usize = 0;
    for i in 0..k
        invariant
            k == radix@.len(),
            digits_ok(d@, radix@),
            prod(radix@) <= usize::MAX,
            acc == ravel(d@.take(i as int), radix@.take(i as int)),
    {
        proof {
            lemma_ravel_take_step(d@, radix@, i as int);
            assert(digits_ok(d@.take(i + 1), radix@.take(i + 1)));
            lemma_ravel_bound(d@.take(i + 1), radix@.take(i + 1));
            assert forall|t: int| 0 <= t < radix@.len() implies #[trigger] radix@[t] >= 1 by {
                assert(d@[t] < radix@[t]);
            }
            lemma_prod_take_le(radix@, i + 1);
        }
        acc = acc * radix[i] + d[i];
    }
    assert(d@.take(k as int) =~= d@);
    assert(radix@.take(k as int) =~= radix@);
    acc
}

/// Digits of patch `q` (within range) combine with in-patch digits into a cell within
/// range, and the cell's digits decompose back into them.
proof fn lemma_coords_ok(qm: Seq<usize>, rm: Seq<usize>, cfg: &PatchConfig)
    requires
        cfg.wf(),
        digits_ok(qm, grid_of(cfg.dims@, cfg.patch@)),
        digits_ok(rm, cfg.patch@),
    ensures
        digits_ok(coords_of(qm, rm, cfg.patch@), cfg.dims@),
        forall|i: int|
            0 <= i < cfg.dims@.len() ==> #[trigger] (coords_of(qm, rm, cfg.patch@)[i] / cfg.patch@[i])
                == qm[i] && coords_of(qm, rm, cfg.patch@)[i] % cfg.patch@[i] == rm[i],
        forall|i: int|
            0 <= i < cfg.dims@.len() ==> #[trigger] coords_of(qm, rm, cfg.patch@)[i] == qm[i]
                * cfg.patch@[i] + rm[i],
{
    lemma_wf_sizes(cfg);
    let patch = cfg.patch@;
    let dims = cfg.dims@;
    let grid = grid_of(dims, patch);
    let x = coords_of(qm, rm, patch);
    assert forall|i: int| 0 <= i < dims.len() implies #[trigger] x[i] < dims[i] && x[i] / patch[i]
        == qm[i] && x[i] % patch[i] == rm[i] && x[i] == qm[i] * patch[i] + rm[i] by {
        assert(grid[i] >= 1 && grid[i] * patch[i] == dims[i]);
        assert(qm[i] < grid[i]);
        assert(rm[i] < patch[i]);
        let q = qm[i] as int;
        let r = rm[i] as int;
        let p = patch[i] as int;
        let g = grid[i] as int;
        assert(q * p + r < g * p) by (nonlinear_arith)
            requires
                0 <= q < g,
                0 <= r < p,
        ;
        assert(0 <= q * p + r) by (nonlinear_arith)
            requires
                0 <= q,
                0 <= r,
                p >= 1,
        ;
        assert(x[i] == q * p + r);
        lemma_fundamental_div_mod_converse(q * p + r, p, q, r);
    }
}

/// Row-major strides are not needed: the cell of slot `v` of patch `q` is the ravel of
/// the combined digits; it lies within the input.
proof fn lemma_cell_in_range(cfg: &PatchConfig, q: int, v: int)
    requires
        cfg.wf(),
        0 <= q < cfg.spec_n_patches(),
        0 <= v < cfg.spec_patch_vol(),
    ensures
        0 <= cfg.spec_cell(q, v) < cfg.spec_input_len(),
{
    lemma_wf_sizes(cfg);
    let c = cfg.channels as int;
    let grid = grid_of(cfg.dims@, cfg.patch@);
    let pp = prod(cfg.patch@);
    lemma_fundamental_div_mod(v, c);
    assert(0 <= v / c < pp) by (nonlinear_arith)
        requires
            0 <= v < pp * c,
            c >= 1,
            v == c * (v / c) + v % c,
            0 <= v % c < c,
    ;
    let qm = unravel_spec(q, grid);
    let rm = unravel_spec(v / c, cfg.patch@);
    lemma_unravel_digits(q, grid);
    lemma_unravel_digits(v / c, cfg.patch@);
    lemma_coords_ok(qm, rm, cfg);
    let x = coords_of(qm, rm, cfg.patch@);
    lemma_ravel_bound(x, cfg.dims@);
    let a = ravel(x, cfg.dims@);
    let pd = prod(cfg.dims@);
    let m = v % c;
    assert(0 <= a * c + m < pd * c) by (nonlinear_arith)
        requires
            0 <= a < pd,
            0 <= m < c,
    ;
}

/// Distinct slots read distinct input offsets.
proof fn lemma_cell_injective(cfg: &PatchConfig, q1: int, v1: int, q2: int, v2: int)
    requires
        cfg.wf(),
        0 <= q1 < cfg.spec_n_patches(),
        0 <= v1 < cfg.spec_patch_vol(),
        0 <= q2 < cfg.spec_n_patches(),
        0 <= v2 < cfg.spec_patch_vol(),
        cfg.spec_cell(q1, v1) == cfg.spec_cell(q2, v2),
    ensures
        q1 == q2,
        v1 == v2,
{
    lemma_wf_sizes(cfg);
    let c = cfg.channels as int;
    let grid = grid_of(cfg.dims@, cfg.patch@);
    let patch = cfg.patch@;
    let pp = prod(patch);
    lemma_fundamental_div_mod(v1, c);
    lemma_fundamental_div_mod(v2, c);
    assert(0 <= v1 / c < pp && 0 <= v2 / c < pp) by (nonlinear_arith)
        requires
            0 <= v1 < pp * c,
            0 <= v2 < pp * c,
            c >= 1,
            v1 == c * (v1 / c) + v1 % c,
            v2 == c * (v2 / c) + v2 % c,
            0 <= v1 % c < c,
            0 <= v2 % c < c,
    ;
    let qm1 = unravel_spec(q1, grid);
    let rm1 = unravel_spec(v1 / c, patch);
    let qm2 = unravel_spec(q2, grid);
    let rm2 = unravel_spec(v2 / c, patch);
    lemma_unravel_digits(q1, grid);
    lemma_unravel_digits(v1 / c, patch);
    lemma_unravel_digits(q2, grid);
    lemma_unravel_digits(v2 / c, patch);
    lemma_coords_ok(qm1, rm1, cfg);
    lemma_coords_ok(qm2, rm2, cfg);
    let x1 = coords_of(qm1, rm1, patch);
    let x2 = coords_of(qm2, rm2, patch);
    lemma_ravel_bound(x1, cfg.dims@);
    lemma_ravel_bound(x2, cfg.dims@);
    let a1 = ravel(x1, cfg.dims@);
    let a2 = ravel(x2, cfg.dims@);
    lemma_fundamental_div_mod_converse(a1 * c + v1 % c, c, a1, v1 % c);
    lemma_fundamental_div_mod_converse(a2 * c + v2 % c, c, a2, v2 % c);
    assert(a1 == a2);
    assert(v1 % c == v2 % c);
    lemma_unravel_ravel(x1, cfg.dims@);
    lemma_unravel_ravel(x2, cfg.dims@);
    assert(x1 =~= x2);
    assert(qm1 =~= qm2) by {
        assert forall|i: int| 0 <= i < qm1.len() implies qm1[i] == qm2[i] by {
            assert(x1[i] / patch[i] == qm1[i]);
            assert(x2[i] / patch[i] == qm2[i]);
        }
    }
    assert(rm1 =~= rm2) by {
        assert forall|i: int| 0 <= i < rm1.len() implies rm1[i] == rm2[i] by {
            assert(x1[i] / patch[i] == qm1[i]);
            assert(x2[i] / patch[i] == qm2[i]);
            assert(x1[i] % patch[i] == rm1[i]);
            assert(x2[i] % patch[i] == rm2[i]);
        }
    }
    lemma_ravel_unravel(q1, grid);
    lemma_ravel_unravel(q2, grid);
    lemma_ravel_unravel(v1 / c, patch);
    lemma_ravel_unravel(v2 / c, patch);
    assert(v1 / c == v2 / c);
}

/// Every input offset is read by some slot of some patch.
proof fn lemma_cell_covering(cfg: &PatchConfig, e: int) -> (qv: (int, int))
    requires
        cfg.wf(),
        0 <= e < cfg.spec_input_len(),
    ensures
        0 <= qv.0 < cfg.spec_n_patches(),
        0 <= qv.1 < cfg.spec_patch_vol(),
        cfg.spec_cell(qv.0, qv.1) == e,
{
    lemma_wf_sizes(cfg);
    let c = cfg.channels as int;
    let dims = cfg.dims@;
    let patch = cfg.patch@;
    let grid = grid_of(dims, patch);
    let pd = prod(dims);
    let pp = prod(patch);
    lemma_fundamental_div_mod(e, c);
    let cf = e / c;
    let m = e % c;
    assert(0 <= cf < pd) by (nonlinear_arith)
        requires
            0 <= e < pd * c,
            c >= 1,
            e == c * cf + m,
            0 <= m < c,
    ;
    let x = unravel_spec(cf, dims);
    lemma_unravel_digits(cf, dims);
    lemma_ravel_unravel(cf, dims);
    let qm = Seq::new(dims.len(), |i: int| (x[i] / patch[i]) as usize);
    let rm = Seq::new(dims.len(), |i: int| (x[i] % patch[i]) as usize);
    assert(digits_ok(qm, grid) && digits_ok(rm, patch) && coords_of(qm, rm, patch) =~= x) by {
        assert forall|i: int| 0 <= i < dims.len() implies #[trigger] qm[i] < grid[i] && rm[i]
            < patch[i] && coords_of(qm, rm, patch)[i] == x[i] by {
            assert(grid[i] >= 1 && grid[i] * patch[i] == dims[i]);
            assert(x[i] < dims[i]);
            let p = patch[i] as int;
            let xi = x[i] as int;
            let g = grid[i] as int;
            lemma_fundamental_div_mod(xi, p);
            assert(0 <= xi / p < g) by (nonlinear_arith)
                requires
                    0 <= xi < g * p,
                    p >= 1,
                    xi == p * (xi / p) + xi % p,
                    0 <= xi % p < p,
            ;
            assert(xi == (xi / p) * p + xi % p) by (nonlinear_arith)
                requires
                    xi == p * (xi / p) + xi % p,
            ;
        }
    }
    let q = ravel(qm, grid);
    let r = ravel(rm, patch);
    lemma_ravel_bound(qm, grid);
    lemma_ravel_bound(rm, patch);
    lemma_unravel_ravel(qm, grid);
    lemma_unravel_ravel(rm, patch);
    let v = r * c + m;
    assert(0 <= v < pp * c) by (nonlinear_arith)
        requires
            v == r * c + m,
            0 <= r < pp,
            0 <= m < c,
    ;
    lemma_fundamental_div_mod_converse(v, c, r, m);
    assert(cfg.spec_cell(q, v) == cf * c + m);
    assert(cf * c + m == e) by (nonlinear_arith)
        requires
            e == c * cf + m,
    ;
    (q, v)
}

/// The gather is a partition of the input: every offset of one sample is read by
/// exactly one slot `(q, v)` of the map.
pub proof fn lemma_gather_partition(cfg: &PatchConfig, e: int)
    requires
        cfg.wf(),
        0 <= e < cfg.spec_input_len(),
    ensures
        exists|q: int, v: int|
            0 <= q < cfg.spec_n_patches() && 0 <= v < cfg.spec_patch_vol() && #[trigger] cfg.spec_cell(
                q,
                v,
            ) == e,
        forall|q1: int, v1: int, q2: int, v2: int|
            0 <= q1 < cfg.spec_n_patches() && 0 <= v1 < cfg.spec_patch_vol() && 0 <= q2
                < cfg.spec_n_patches() && 0 <= v2 < cfg.spec_patch_vol() && #[trigger] cfg.spec_cell(
                q1,
                v1,
            ) == e && #[trigger] cfg.spec_cell(q2, v2) == e ==> q1 == q2 && v1 == v2,
{
    let qv = lemma_cell_covering(cfg, e);
    assert(cfg.spec_cell(qv.0, qv.1) == e);
    assert forall|q1: int, v1: int, q2: int, v2: int|
        0 <= q1 < cfg.spec_n_patches() && 0 <= v1 < cfg.spec_patch_vol() && 0 <= q2
            < cfg.spec_n_patches() && 0 <= v2 < cfg.spec_patch_vol() && #[trigger] cfg.spec_cell(
            q1,
            v1,
        ) == e && #[trigger] cfg.spec_cell(q2, v2) == e implies q1 == q2 && v1 == v2 by {
        lemma_cell_injective(cfg, q1, v1, q2, v2);
    }
}

/// Some slot of `map` reads offset `e`.
pub open spec fn offset_read(map: Seq<Vec<usize>>, e: int) -> bool {
    exists|q: int, v: int| 0 <= q < map.len() && 0 <= v < map[q]@.len() && #[trigger] map[q]@[v] == e
}

/// For each patch, the `patch_vol` input offsets (within one sample) it reads.
///
/// The map is exactly `spec_cell`; every entry is an input offset, distinct slots read
/// distinct offsets, and every offset is read (the patches partition the input).
pub fn gather_map(cfg: &PatchConfig) -> (map: Vec<Vec<usize>>)
    requires
        cfg.wf(),
    ensures
        map@.len() == cfg.spec_n_patches(),
        forall|q: int| 0 <= q < map@.len() ==> #[trigger] map@[q]@.len() == cfg.spec_patch_vol(),
        forall|q: int, v: int|
            0 <= q < map@.len() && 0 <= v < map@[q]@.len() ==> #[trigger] map@[q]@[v]
                == cfg.spec_cell(q, v) && map@[q]@[v] < cfg.spec_input_len(),
        forall|q1: int, v1: int, q2: int, v2: int|
            0 <= q1 < map@.len() && 0 <= v1 < map@[q1]@.len() && 0 <= q2 < map@.len() && 0 <= v2
                < map@[q2]@.len() && #[trigger] map@[q1]@[v1] == #[trigger] map@[q2]@[v2] ==> q1
                == q2 && v1 == v2,
        forall|e: int| 0 <= e < cfg.spec_input_len() ==> #[trigger] offset_read(map@, e),
{
    proof {
        lemma_wf_sizes(cfg);
    }
    let grid = cfg.grid();
    let n_patches = product(&grid);
    let patch_cells = product(&cfg.patch);
    let channels = cfg.channels;
    let ghost c = channels as int;
    let mut map: Vec<Vec<usize>> = Vec::new();
    for q in 0..n_patches
        invariant
            cfg.wf(),
            grid@ == grid_of(cfg.dims@, cfg.patch@),
            n_patches == cfg.spec_n_patches(),
            patch_cells == prod(cfg.patch@),
            channels == cfg.channels,
            c == channels,
            map@.len() == q,
            forall|t: int| 0 <= t < q ==> #[trigger] map@[t]@.len() == cfg.spec_patch_vol(),
            forall|t: int, v: int|
                0 <= t < q && 0 <= v < map@[t]@.len() ==> #[trigger] map@[t]@[v] == cfg.spec_cell(
                    t,
                    v,
                ),
    {
        proof {
            lemma_wf_sizes(cfg);
        }
        let qm = unravel(q, &grid);
        proof {
            lemma_unravel_digits(q as int, grid@);
        }
        let mut cells: Vec<usize> = Vec::new();
        assert(0 * c == 0);
        for r in 0..patch_cells
            invariant
                cfg.wf(),
                grid@ == grid_of(cfg.dims@, cfg.patch@),
                n_patches == cfg.spec_n_patches(),
                0 <= q < n_patches,
                patch_cells == prod(cfg.patch@),
                channels == cfg.channels,
                c == channels,
                qm@ == unravel_spec(q as int, grid@),
                digits_ok(qm@, grid@),
                cells@.len() == r * c,
                forall|v: int| 0 <= v < cells@.len() ==> #[trigger] cells@[v] == cfg.spec_cell(q as int, v),
        {
            proof {
                lemma_wf_sizes(cfg);
            }
            let rm = unravel(r, &cfg.patch);
            proof {
                lemma_unravel_digits(r as int, cfg.patch@);
                lemma_coords_ok(qm@, rm@, cfg);
            }
            let mut x: Vec<usize> = Vec::new();
            let k = cfg.dims.len();
            for i in 0..k
                invariant
                    cfg.wf(),
                    k == cfg.dims@.len(),
                    digits_ok(qm@, grid@),
                    grid@ == grid_of(cfg.dims@, cfg.patch@),
                    digits_ok(rm@, cfg.patch@),
                    digits_ok(coords_of(qm@, rm@, cfg.patch@), cfg.dims@),
                    forall|t: int|
                        0 <= t < k ==> #[trigger] coords_of(qm@, rm@, cfg.patch@)[t] == qm@[t]
                            * cfg.patch@[t] + rm@[t],
                    x@.len() == i,
                    forall|t: int| 0 <= t < i ==> #[trigger] x@[t] == coords_of(qm@, rm@, cfg.patch@)[t],
            {
                let ghost xs = coords_of(qm@, rm@, cfg.patch@);
                assert(xs[i as int] < cfg.dims@[i as int]);
                assert(xs[i as int] == qm@[i as int] * cfg.patch@[i as int] + rm@[i as int]);
                x.push(qm[i] * cfg.patch[i] + rm[i]);
            }
            assert(x@ =~= coords_of(qm@, rm@, cfg.patch@));
            let cell_flat = ravel_exec(&x, &cfg.dims);
            proof {
                lemma_ravel_bound(x@, cfg.dims@);
            }
            for ch in 0..channels
                invariant
                    cfg.wf(),
                    patch_cells == prod(cfg.patch@),
                    0 <= q < n_patches,
                    n_patches == cfg.spec_n_patches(),
                    0 <= r < patch_cells,
                    channels == cfg.channels,
                    c == channels,
                    cell_flat == ravel(coords_of(qm@, rm@, cfg.patch@), cfg.dims@),
                    cell_flat < prod(cfg.dims@),
                    qm@ == unravel_spec(q as int, grid_of(cfg.dims@, cfg.patch@)),
                    rm@ == unravel_spec(r as int, cfg.patch@),
                    cells@.len() == r * c + ch,
                    forall|v: int| 0 <= v < cells@.len() ==> #[trigger] cells@[v] == cfg.spec_cell(q as int, v),
            {
                let ghost v = r * c + ch;
                proof {
                    lemma_fundamental_div_mod_converse(v, c, r as int, ch as int);
                    let pd = prod(cfg.dims@);
                    let a = cell_flat as int;
                    assert(a * c + ch < pd * c) by (nonlinear_arith)
                        requires
                            0 <= a < pd,
                            0 <= ch < c,
                    ;
                }
                cells.push(cell_flat * channels + ch);
            }
            proof {
                assert((r + 1) * c == r * c + c) by (nonlinear_arith);
            }
        }
        proof {
            assert(patch_cells * c == cfg.spec_patch_vol());
        }
        map.push(cells);
    }
    proof {
        assert forall|q: int, v: int|
            0 <= q < map@.len() && 0 <= v < map@[q]@.len() implies #[trigger] map@[q]@[v]
                == cfg.spec_cell(q, v) && map@[q]@[v] < cfg.spec_input_len() by {
            lemma_cell_in_range(cfg, q, v);
        }
        assert forall|q1: int, v1: int, q2: int, v2: int|
            0 <= q1 < map@.len() && 0 <= v1 < map@[q1]@.len() && 0 <= q2 < map@.len() && 0 <= v2
                < map@[q2]@.len() && #[trigger] map@[q1]@[v1] == #[trigger] map@[q2]@[v2] implies q1
                == q2 && v1 == v2 by {
            lemma_cell_injective(cfg, q1, v1, q2, v2);
        }
        assert forall|e: int| 0 <= e < cfg.spec_input_len() implies #[trigger] offset_read(map@, e) by {
            let qv = lemma_cell_covering(cfg, e);
            assert(map@[qv.0]@[qv.1] == e);
        }
    }
    map
}

/// Cache for the patch-projection backward: the fixed gather map plus batch geometry.
#[derive(Debug, Clone)]
pub struct PatchCache {
    map: Vec<Vec<usize>>,
    n: usize,
    input_len: usize,
}

impl PatchCache {
    /// The gather map held by the cache.
    pub closed spec fn spec_map(&self) -> Seq<Seq<usize>> {
        self.map@.map_values(|row: Vec<usize>| row@)
    }

    /// Batch size held by the cache.
    pub closed spec fn spec_n(&self) -> usize {
        self.n
    }

    /// Per-sample input length held by the cache.
    pub closed spec fn spec_input_len(&self) -> usize {
        self.input_len
    }

    /// Build the cache a forward pass over `n` samples of shape `cfg` saves.
    pub fn new(cfg: &PatchConfig, n: usize) -> (cache: Self)
        requires
            cfg.wf(),
        ensures
            cache.spec_n() == n,
            cache.spec_input_len() == cfg.spec_input_len(),
            cache.spec_map().len() == cfg.spec_n_patches(),
            forall|q: int| 0 <= q < cache.spec_map().len() ==> #[trigger] cache.spec_map()[q].len()
                == cfg.spec_patch_vol(),
            forall|q: int, v: int|
                0 <= q < cache.spec_map().len() && 0 <= v < cache.spec_map()[q].len()
                    ==> #[trigger] cache.spec_map()[q][v] == cfg.spec_cell(q, v),
    {
        let map = gather_map(cfg);
        let input_len = cfg.input_len();
        PatchCache { map, n, input_len }
    }

    /// Batch size.
    pub fn n(&self) -> (r: usize)
        ensures
            r == self.spec_n(),
    {
        self.n
    }

    /// Per-sample input length.
    pub fn input_len(&self) -> (r: usize)
        ensures
            r == self.spec_input_len(),
    {
        self.input_len
    }

    /// Number of patches in the map.
    pub fn n_patches(&self) -> (r: usize)
        ensures
            r == self.spec_map().len(),
    {
        self.map.len()
    }

    /// The input offset read by slot `v` of patch `q`.
    pub fn cell(&self, q: usize, v: usize) -> (r: usize)
        requires
            q < self.spec_map().len(),
            v < self.spec_map()[q as int].len(),
        ensures
            r == self.spec_map()[q as int][v as int],
    {
        self.map[q][v]
    }

    /// The offsets read by patch `q`.
    pub fn patch_cells(&self, q: usize) -> (r: &Vec<usize>)
        requires
            q < self.spec_map().len(),
        ensures
            r@ == self.spec_map()[q as int],
    {
        &self.map[q]
    }
}

} // verus!
