//! Structural assignment of ground-truth objects to quadtree leaves for the
//! oriented-box head: each object goes to the leaf whose cell contains its centre, one
//! object per leaf, the first claim winning.
use vstd::prelude::*;
use crate::ops::quadtree::covers;

verus! {

/// Some pair of `pairs` names node `node`.
pub open spec fn node_claimed(pairs: Seq<(usize, usize)>, node: int) -> bool {
    exists|t: int| 0 <= t < pairs.len() && #[trigger] pairs[t].0 == node
}

/// The `(node, object)` claims of the first `k` objects: an object whose centre pixel
/// `(row, col)` is known claims the leaf `assign[row * g + col]` unless an earlier object
/// already did; an object without a centre in the image claims nothing.
pub open spec fn claims(
    centers: Seq<Option<(usize, usize)>>,
    assign: Seq<u32>,
    g: int,
    k: int,
) -> Seq<(usize, usize)>
    decreases k,
{
    if k <= 0 {
        Seq::empty()
    } else {
        let prev = claims(centers, assign, g, k - 1);
        match centers[k - 1] {
            None => prev,
            Some(rc) => {
                let node = assign[rc.0 * g + rc.1] as usize;
                if node_claimed(prev, node as int) {
                    prev
                } else {
                    prev.push((node, (k - 1) as usize))
                }
            },
        }
    }
}

/// Assign objects to leaves of a built quadtree, one object per leaf: object `k` with
/// centre pixel `centers[k] = Some((row, col))` goes to the leaf covering that pixel,
/// the first object claiming a leaf wins, and objects with no centre in the image are
/// skipped. Returns `(node, object)` pairs in object order; the nodes are distinct and
/// each below `n_cells`.
pub fn claim_nodes(centers: &Vec<Option<(usize, usize)>>, assign: &Vec<u32>, n_cells: usize, g: usize) -> (r: Vec<
    (usize, usize),
>)
    requires
        assign@.len() == g * g,
        forall|p: int| 0 <= p < assign@.len() ==> (#[trigger] assign@[p] as int) < n_cells,
        forall|k: int|
            0 <= k < centers@.len() ==> (#[trigger] centers@[k] matches Some(rc) ==> rc.0 < g && rc.1 < g),
    ensures
        r@ == claims(centers@, assign@, g as int, centers@.len() as int),
        forall|t: int| 0 <= t < r@.len() ==> (#[trigger] r@[t]).0 < n_cells && r@[t].1 < centers@.len(),
        forall|s: int, t: int| 0 <= s < t < r@.len() ==> (#[trigger] r@[s]).0 != (#[trigger] r@[t]).0,
{
    let mut taken: Vec<bool> = Vec::new();
    for x in 0..n_cells
        invariant
            taken@.len() == x,
            forall|y: int| 0 <= y < x ==> !(#[trigger] taken@[y]),
    {
        taken.push(false);
    }
    let mut out: Vec<(usize, usize)> = Vec::new();
    let n = centers.len();
    let alen = assign.len();
    for k in 0..n
        invariant
            n == centers@.len(),
            alen == assign@.len(),
            assign@.len() == g * g,
            forall|p: int| 0 <= p < assign@.len() ==> (#[trigger] assign@[p] as int) < n_cells,
            forall|kk: int|
                0 <= kk < centers@.len() ==> (#[trigger] centers@[kk] matches Some(rc) ==> rc.0 < g && rc.1 < g),
            taken@.len() == n_cells,
            out@ == claims(centers@, assign@, g as int, k as int),
            forall|y: int| 0 <= y < n_cells ==> (#[trigger] taken@[y] <==> node_claimed(out@, y)),
            forall|t: int| 0 <= t < out@.len() ==> (#[trigger] out@[t]).0 < n_cells && out@[t].1 < k,
            forall|s: int, t: int| 0 <= s < t < out@.len() ==> (#[trigger] out@[s]).0 != (#[trigger] out@[t]).0,
    {
        match centers[k] {
            None => {},
            Some(rc) => {
                let (row, col) = rc;
                proof {
                    assert(row < g && col < g);
                    assert(row * g + col < g * g) by (nonlinear_arith)
                        requires
                            row < g,
                            col < g,
                    ;
                    assert(row * g + col < alen);
                }
                let node = assign[row * g + col] as usize;
                if !taken[node] {
                    let ghost before = out@;
                    out.push((node, k));
                    taken.set(node, true);
                    proof {
                        assert(!node_claimed(before, node as int));
                        assert forall|y: int| 0 <= y < n_cells implies (#[trigger] taken@[y] <==> node_claimed(out@, y)) by {
                            if y == node {
                                assert(out@[before.len() as int].0 == node);
                            } else if node_claimed(before, y) {
                                let t = choose|t: int| 0 <= t < before.len() && #[trigger] before[t].0 == y;
                                assert(out@[t] == before[t]);
                            } else if node_claimed(out@, y) {
                                let t = choose|t: int| 0 <= t < out@.len() && #[trigger] out@[t].0 == y;
                                if t < before.len() {
                                    assert(before[t] == out@[t]);
                                }
                            }
                        }
                        assert forall|s: int, t: int| 0 <= s < t < out@.len() implies (#[trigger] out@[s]).0 != (#[trigger] out@[t]).0 by {
                            if t == before.len() {
                                assert(out@[s] == before[s]);
                            } else {
                                assert(out@[s] == before[s] && out@[t] == before[t]);
                            }
                        }
                    }
                } else {
                    proof {
                        assert(node_claimed(out@, node as int));
                    }
                }
            },
        }
    }
    out
}

/// Every claim names the leaf at its object's centre pixel.
proof fn lemma_claims_at_centre(centers: Seq<Option<(usize, usize)>>, assign: Seq<u32>, g: int, k: int, t: int)
    requires
        0 <= k <= centers.len(),
        centers.len() <= usize::MAX,
        0 <= t < claims(centers, assign, g, k).len(),
    ensures
        ({
            let c = claims(centers, assign, g, k)[t];
            &&& c.1 < k
            &&& centers[c.1 as int] matches Some(rc) && c.0 == assign[rc.0 * g + rc.1] as usize
        }),
    decreases k,
{
    if k > 0 {
        let prev = claims(centers, assign, g, k - 1);
        if t < prev.len() {
            lemma_claims_at_centre(centers, assign, g, k - 1, t);
            assert(claims(centers, assign, g, k)[t] == prev[t]);
        }
    }
}

/// On the leaves of a partition of a `g x g` image (each pixel `p` covered by exactly
/// leaf `assign[p]`, as a built quadtree guarantees), every claimed leaf covers the
/// centre pixel of the object that claimed it.
pub proof fn lemma_claimed_leaf_covers_centre(
    cells: Seq<[usize; 4]>,
    assign: Seq<u32>,
    centers: Seq<Option<(usize, usize)>>,
    g: int,
    t: int,
)
    requires
        g >= 1,
        centers.len() <= usize::MAX,
        assign.len() == g * g,
        forall|p: int| 0 <= p < g * g ==> (#[trigger] assign[p] as int) < cells.len(),
        forall|p: int, l: int|
            0 <= p < g * g && 0 <= l < cells.len() ==> (covers(#[trigger] cells[l], p, g) <==> #[trigger] assign[p] as int == l),
        forall|k: int| 0 <= k < centers.len() ==> (#[trigger] centers[k] matches Some(rc) ==> rc.0 < g && rc.1 < g),
        0 <= t < claims(centers, assign, g, centers.len() as int).len(),
    ensures
        ({
            let c = claims(centers, assign, g, centers.len() as int)[t];
            centers[c.1 as int] matches Some(rc) && covers(cells[c.0 as int], rc.0 * g + rc.1, g)
        }),
{
    lemma_claims_at_centre(centers, assign, g, centers.len() as int, t);
    let c = claims(centers, assign, g, centers.len() as int)[t];
    let rc = centers[c.1 as int]->Some_0;
    assert(centers[c.1 as int] matches Some(_));
    assert(rc.0 < g && rc.1 < g);
    let p = rc.0 * g + rc.1;
    assert(0 <= p < g * g) by (nonlinear_arith)
        requires
            0 <= rc.0 < g,
            0 <= rc.1 < g,
            p == rc.0 * g + rc.1,
    ;
    assert(assign[p] as int == c.0 as int);
    assert(covers(cells[c.0 as int], p, g));
}

} // verus!
