//! Tier routing of the concentric-pyramid core: which cycles each degree tier processes,
//! and the per-vertex incidence counts the tiers are stratified by.
//!
//! Each tier processes only the cycles that **touch** one of its vertices, so a cycle
//! spanning several tiers appears in each of them (the routing overlaps; it is not a
//! partition).
use vstd::prelude::*;

verus! {

/// Cycle `c` (corners `c*k .. c*k + k` of `cycles`) has a vertex in tier `ell`.
pub open spec fn touches(cycles: Seq<u32>, k: int, tier_of: Seq<usize>, ell: usize, c: int) -> bool {
    exists|i: int| 0 <= i < k && #[trigger] tier_of[cycles[c * k + i] as int] == ell
}

/// Indices of the cycles that touch at least one tier-`ell` vertex, in increasing order.
/// `cycles` is flat `(M * k)`; every corner must index `tier_of`.
pub fn tier_cycle_indices(cycles: &[u32], k: usize, tier_of: &[usize], ell: usize) -> (r: Vec<usize>)
    requires
        k >= 1,
        (cycles@.len() as int) % (k as int) == 0,
        forall|t: int| 0 <= t < cycles@.len() ==> (#[trigger] cycles@[t] as int) < tier_of@.len(),
    ensures
        forall|j: int| 0 <= j < r@.len() ==> (#[trigger] r@[j] as int) < (cycles@.len() as int) / (k as int),
        forall|j: int| 0 <= j < r@.len() ==> touches(cycles@, k as int, tier_of@, ell, #[trigger] r@[j] as int),
        forall|j1: int, j2: int| 0 <= j1 < j2 < r@.len() ==> #[trigger] r@[j1] < #[trigger] r@[j2],
        forall|c: int|
            0 <= c < (cycles@.len() as int) / (k as int) && touches(cycles@, k as int, tier_of@, ell, c) ==> r@.contains(
                c as usize,
            ),
{
    let len = cycles.len();
    let m = len / k;
    let ghost ki = k as int;
    let mut out: Vec<usize> = Vec::new();
    for c in 0..m
        invariant
            m == (cycles@.len() as int) / ki,
            len == cycles@.len(),
            ki == k,
            k >= 1,
            (cycles@.len() as int) % ki == 0,
            forall|t: int| 0 <= t < cycles@.len() ==> (#[trigger] cycles@[t] as int) < tier_of@.len(),
            forall|j: int| 0 <= j < out@.len() ==> #[trigger] out@[j] < c,
            forall|j: int| 0 <= j < out@.len() ==> touches(cycles@, ki, tier_of@, ell, #[trigger] out@[j] as int),
            forall|j1: int, j2: int| 0 <= j1 < j2 < out@.len() ==> #[trigger] out@[j1] < #[trigger] out@[j2],
            forall|cc: int| 0 <= cc < c && touches(cycles@, ki, tier_of@, ell, cc) ==> out@.contains(cc as usize),
    {
        proof {
            vstd::arithmetic::div_mod::lemma_fundamental_div_mod(cycles@.len() as int, ki);
            assert(c * ki + ki <= cycles@.len()) by (nonlinear_arith)
                requires
                    c + 1 <= m,
                    cycles@.len() == ki * m,
                    ki >= 1,
            ;
        }
        let mut hit = false;
        for i in 0..k
            invariant
                c < m,
                ki == k,
                len == cycles@.len(),
                c * ki + ki <= cycles@.len(),
                forall|t: int| 0 <= t < cycles@.len() ==> (#[trigger] cycles@[t] as int) < tier_of@.len(),
                hit <==> exists|ii: int| 0 <= ii < i && #[trigger] tier_of@[cycles@[c * ki + ii] as int] == ell,
        {
            let v = cycles[c * k + i] as usize;
            if tier_of[v] == ell {
                hit = true;
            }
            proof {
                if tier_of@[cycles@[c * ki + i] as int] == ell {
                    assert(hit);
                }
            }
        }
        let ghost before = out@;
        if hit {
            out.push(c);
            proof {
                assert(out@[before.len() as int] == c);
            }
        }
        proof {
            assert forall|cc: int| 0 <= cc < c + 1 && touches(cycles@, ki, tier_of@, ell, cc) implies out@.contains(cc as usize) by {
                if cc < c {
                    assert(before.contains(cc as usize));
                    let w = choose|w: int| 0 <= w < before.len() && before[w] == cc as usize;
                    assert(out@[w] == before[w]);
                } else {
                    assert(hit);
                    assert(out@[before.len() as int] == c);
                }
            }
        }
    }
    out
}

/// Occurrences of `v` among the first `n` entries of `s`.
pub open spec fn occurrences(s: Seq<u32>, v: int, n: int) -> int
    decreases n,
{
    if n <= 0 {
        0
    } else {
        occurrences(s, v, n - 1) + if s[n - 1] as int == v {
            1int
        } else {
            0
        }
    }
}

proof fn lemma_occurrences_bound(s: Seq<u32>, v: int, n: int)
    requires
        0 <= n,
    ensures
        0 <= occurrences(s, v, n) <= n,
    decreases n,
{
    if n > 0 {
        lemma_occurrences_bound(s, v, n - 1);
    }
}

/// Per-vertex incidence count: the number of cycle corners landing on each vertex.
/// Every corner must be below `n_nodes`.
pub fn cycle_incidence_degrees(cycles: &[u32], n_nodes: usize) -> (deg: Vec<u32>)
    requires
        forall|t: int| 0 <= t < cycles@.len() ==> (#[trigger] cycles@[t] as int) < n_nodes,
        cycles@.len() <= u32::MAX,
    ensures
        deg@.len() == n_nodes,
        forall|v: int| 0 <= v < n_nodes ==> #[trigger] deg@[v] == occurrences(cycles@, v, cycles@.len() as int),
{
    let mut deg: Vec<u32> = Vec::new();
    for v in 0..n_nodes
        invariant
            deg@.len() == v,
            forall|u: int| 0 <= u < v ==> #[trigger] deg@[u] == 0,
    {
        deg.push(0);
    }
    let len = cycles.len();
    for t in 0..len
        invariant
            len == cycles@.len(),
            len <= u32::MAX,
            deg@.len() == n_nodes,
            forall|tt: int| 0 <= tt < cycles@.len() ==> (#[trigger] cycles@[tt] as int) < n_nodes,
            forall|v: int| 0 <= v < n_nodes ==> #[trigger] deg@[v] == occurrences(cycles@, v, t as int),
    {
        let v = cycles[t] as usize;
        proof {
            lemma_occurrences_bound(cycles@, v as int, t as int);
        }
        deg.set(v, deg[v] + 1);
        proof {
            assert forall|u: int| 0 <= u < n_nodes implies #[trigger] deg@[u] == occurrences(cycles@, u, t + 1) by {}
        }
    }
    deg
}

} // verus!
