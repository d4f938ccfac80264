//! The incidence of a mesh tensor's signed hypergraph: `n_edges` hyperedges of `k` node
//! corners each, flat `(n_edges, k)`, with one corner sign per corner and one structural
//! scale per node. The checks a mesh is built under, in the order they are made.
use vstd::prelude::*;

verus! {

/// Why an incidence cannot form a mesh.
#[derive(Clone, Copy, Debug, PartialEq, Eq, Structural)]
pub enum MeshError {
    /// The corner arity `k` is zero.
    ZeroArity,
    /// The corner list is not a whole number of hyperedges.
    RaggedCorners,
    /// There is not exactly one sign per corner.
    SignCount,
    /// There is not exactly one scale per node.
    ScaleCount,
    /// A corner names a node out of range.
    CornerOutOfRange,
}

/// The incidence of `cycles` over `n_nodes` nodes with arity `k` is well formed, given
/// `n_signs` corner signs and `n_scale` node scales.
pub open spec fn valid_mesh(cycles: Seq<u32>, n_signs: int, n_scale: int, n_nodes: int, k: int) -> bool {
    &&& k >= 1
    &&& (cycles.len() as int) % k == 0
    &&& n_signs == cycles.len()
    &&& n_scale == n_nodes
    &&& forall|t: int| 0 <= t < cycles.len() ==> (#[trigger] cycles[t] as int) < n_nodes
}

/// Check a mesh incidence, reporting the first violation: arity, whole hyperedges, sign
/// count, scale count, then corner range. On success returns the hyperedge count
/// `cycles.len() / k`.
pub fn check_mesh(cycles: &Vec<u32>, n_signs: usize, n_scale: usize, n_nodes: usize, k: usize) -> (r: Result<
    usize,
    MeshError,
>)
    ensures
        r is Ok <==> valid_mesh(cycles@, n_signs as int, n_scale as int, n_nodes as int, k as int),
        r matches Ok(e) ==> e == (cycles@.len() as int) / (k as int),
        r == Err::<usize, MeshError>(MeshError::ZeroArity) <==> k == 0,
        r == Err::<usize, MeshError>(MeshError::RaggedCorners) <==> k >= 1 && (cycles@.len() as int) % (k as int) != 0,
        r == Err::<usize, MeshError>(MeshError::SignCount) <==> k >= 1 && (cycles@.len() as int) % (k as int) == 0
            && n_signs != cycles@.len(),
        r == Err::<usize, MeshError>(MeshError::ScaleCount) <==> k >= 1 && (cycles@.len() as int) % (k as int) == 0
            && n_signs == cycles@.len() && n_scale != n_nodes,
        r == Err::<usize, MeshError>(MeshError::CornerOutOfRange) <==> k >= 1 && (cycles@.len() as int) % (k as int)
            == 0 && n_signs == cycles@.len() && n_scale == n_nodes && exists|t: int|
            0 <= t < cycles@.len() && n_nodes <= #[trigger] cycles@[t],
{
    if k == 0 {
        return Err(MeshError::ZeroArity);
    }
    if cycles.len() % k != 0 {
        return Err(MeshError::RaggedCorners);
    }
    if n_signs != cycles.len() {
        return Err(MeshError::SignCount);
    }
    if n_scale != n_nodes {
        return Err(MeshError::ScaleCount);
    }
    let len = cycles.len();
    for t in 0..len
        invariant
            len == cycles@.len(),
            k >= 1,
            (cycles@.len() as int) % (k as int) == 0,
            n_signs == cycles@.len(),
            n_scale == n_nodes,
            forall|u: int| 0 <= u < t ==> (#[trigger] cycles@[u] as int) < n_nodes,
    {
        if cycles[t] as usize >= n_nodes {
            assert(n_nodes <= cycles@[t as int]);
            return Err(MeshError::CornerOutOfRange);
        }
    }
    Ok(len / k)
}

} // verus!
