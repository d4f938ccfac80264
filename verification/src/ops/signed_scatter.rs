//! Lane and shape metadata of the signed, gate-weighted scatter over routed sequence
//! pairs: `mixed[query, block] += gate[pair] * tanh(offset_sign[offset, block]) *
//! transported[pair, block]`, where every pair names a query lane and an offset lane and
//! every `(pair or query, block)` holds a 3-vector.
use vstd::prelude::*;

verus! {

/// Base offset of the 3-vector of `pair`, `block`: `(pair * n_blocks + block) * 3`.
pub fn pair_block_base(pair: usize, block: usize, n_blocks: usize) -> (r: usize)
    requires
        (pair * n_blocks + block) * 3 <= usize::MAX,
    ensures
        r == (pair * n_blocks + block) * 3,
{
    proof {
        assert(pair * n_blocks <= (pair * n_blocks + block) * 3) by (nonlinear_arith)
            requires
                pair * n_blocks >= 0,
                block >= 0,
        ;
    }
    (pair * n_blocks + block) * 3
}

/// Base offset of the 3-vector of `query`, `block`: `(query * n_blocks + block) * 3`.
pub fn query_block_base(query: usize, block: usize, n_blocks: usize) -> (r: usize)
    requires
        (query * n_blocks + block) * 3 <= usize::MAX,
    ensures
        r == (query * n_blocks + block) * 3,
{
    proof {
        assert(query * n_blocks <= (query * n_blocks + block) * 3) by (nonlinear_arith)
            requires
                query * n_blocks >= 0,
                block >= 0,
        ;
    }
    (query * n_blocks + block) * 3
}

/// Query and offset lanes for signed scatter pairs.
#[derive(Debug, Clone, Copy)]
pub struct SignedScatterLanes<'a> {
    /// Query index for each routed pair, flat `(n_pairs)`.
    pub query_of: &'a [u32],
    /// Relative offset for each routed pair, flat `(n_pairs)`.
    pub offset_of: &'a [u32],
}

impl<'a> SignedScatterLanes<'a> {
    /// Construct pair lanes; both lanes must have one entry per pair.
    pub fn new(query_of: &'a [u32], offset_of: &'a [u32]) -> (l: Self)
        requires
            query_of@.len() == offset_of@.len(),
        ensures
            l.query_of@ == query_of@,
            l.offset_of@ == offset_of@,
    {
        SignedScatterLanes { query_of, offset_of }
    }
}

/// Shape metadata for signed scatter.
#[derive(Debug, Clone, Copy)]
pub struct SignedScatterLayout {
    /// Number of query lanes.
    pub n_queries: usize,
    /// Number of relative-offset lanes.
    pub n_offsets: usize,
    /// Number of 3-vector blocks per pair/query.
    pub n_blocks: usize,
}

impl SignedScatterLayout {
    /// Construct signed-scatter shape metadata; every dimension must be non-zero.
    pub fn new(n_queries: usize, n_offsets: usize, n_blocks: usize) -> (l: Self)
        requires
            n_queries > 0,
            n_offsets > 0,
            n_blocks > 0,
        ensures
            l.n_queries == n_queries,
            l.n_offsets == n_offsets,
            l.n_blocks == n_blocks,
    {
        SignedScatterLayout { n_queries, n_offsets, n_blocks }
    }
}

} // verus!
