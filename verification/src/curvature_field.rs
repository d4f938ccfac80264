//! The `L x L` lattice patch of the curvature-field task and its column blocks.
//!
//! Nodes are `r*L + c`; horizontal edges come first, then vertical ones:
//! `h(r,c) = (r,c) -> (r,c+1)` at index `r*(L-1) + c`, `v(r,c) = (r,c) -> (r+1,c)` at index
//! `L*(L-1) + r*L + c`. Each unit square (plaquette) `(r,c)` is traversed
//! `(r,c) -> (r,c+1) -> (r+1,c+1) -> (r+1,c) -> (r,c)`.
use vstd::prelude::*;
use crate::curvature_task::{step_from, step_to};

verus! {

/// Node `(r, c)` of an `l`-wide lattice.
pub open spec fn node_id(l: int, r: int, c: int) -> int {
    r * l + c
}

/// Index of the horizontal edge `(r,c) -> (r,c+1)`.
pub open spec fn h_index(l: int, r: int, c: int) -> int {
    r * (l - 1) + c
}

/// Index of the vertical edge `(r,c) -> (r+1,c)`.
pub open spec fn v_index(l: int, r: int, c: int) -> int {
    l * (l - 1) + r * l + c
}

/// Index of plaquette `(r, c)` on the `m x m` plaquette grid.
pub open spec fn plaq_index(m: int, r: int, c: int) -> int {
    r * m + c
}

/// The four directed steps of plaquette `(r, c)`.
pub open spec fn plaquette_steps(l: int, r: int, c: int) -> [(usize, bool); 4] {
    [
        (h_index(l, r, c) as usize, true),
        (v_index(l, r, c + 1) as usize, true),
        (h_index(l, r + 1, c) as usize, false),
        (v_index(l, r, c) as usize, false),
    ]
}

/// An `L x L` lattice: nodes `r*L+c`, horizontal then vertical edges, unit-square plaquettes.
#[derive(Clone, Debug)]
pub struct GridGraph {
    /// Side length in nodes.
    pub l: usize,
    /// Plaquette grid side = `l - 1`.
    pub m: usize,
    /// Node count `l*l`.
    pub n_nodes: usize,
    /// Edge count `2*l*(l-1)`.
    pub n_edges: usize,
    /// Directed edges `(u, v)`.
    pub edges: Vec<(u32, u32)>,
    /// One per plaquette `(r,c)` (row-major, `r*m+c`): the 4 traversal `(edge_idx, forward?)`.
    pub plaquettes: Vec<[(usize, bool); 4]>,
}

/// `g` is the lattice of side `l` with the documented layout.
pub open spec fn is_grid(g: GridGraph, l: int) -> bool {
    &&& g.l == l
    &&& g.m == l - 1
    &&& g.n_nodes == l * l
    &&& g.n_edges == 2 * l * (l - 1)
    &&& g.edges@.len() == g.n_edges
    &&& forall|r: int, c: int|
        0 <= r < l && 0 <= c < l - 1 ==> #[trigger] g.edges@[h_index(l, r, c)] == (
            node_id(l, r, c) as u32,
            node_id(l, r, c + 1) as u32,
        )
    &&& forall|r: int, c: int|
        0 <= r < l - 1 && 0 <= c < l ==> #[trigger] g.edges@[v_index(l, r, c)] == (
            node_id(l, r, c) as u32,
            node_id(l, r + 1, c) as u32,
        )
    &&& g.plaquettes@.len() == (l - 1) * (l - 1)
    &&& forall|r: int, c: int|
        0 <= r < l - 1 && 0 <= c < l - 1 ==> #[trigger] g.plaquettes@[plaq_index(l - 1, r, c)]
            == plaquette_steps(l, r, c)
}

/// Row-major indices are ordered lexicographically.
proof fn lemma_lex(a: int, b: int, c: int, d: int, w: int)
    requires
        0 <= b < w,
        0 <= d < w,
        0 <= a,
        0 <= c,
        a < c || (a == c && b < d),
    ensures
        a * w + b < c * w + d,
{
    if a < c {
        assert(a * w + b < (a + 1) * w) by (nonlinear_arith)
            requires
                b < w,
        ;
        assert((a + 1) * w <= c * w) by (nonlinear_arith)
            requires
                a + 1 <= c,
                w >= 0,
        ;
    }
}

/// A row-major index is below the full size.
proof fn lemma_rm_bound(a: int, b: int, h: int, w: int)
    requires
        0 <= a < h,
        0 <= b < w,
    ensures
        0 <= a * w + b < h * w,
{
    assert(0 <= a * w + b < h * w) by (nonlinear_arith)
        requires
            0 <= a < h,
            0 <= b < w,
    ;
}

impl GridGraph {
    /// Index of the horizontal edge `(r,c) -> (r,c+1)`.
    fn h_idx(&self, r: usize, c: usize) -> (i: usize)
        requires
            self.l >= 1,
            r < self.l,
            c < self.l - 1,
            self.l * self.l <= usize::MAX,
        ensures
            i == h_index(self.l as int, r as int, c as int),
    {
        proof {
            lemma_rm_bound(r as int, c as int, self.l as int, self.l - 1);
            assert(self.l * (self.l - 1) <= self.l * self.l) by (nonlinear_arith)
                requires
                    self.l >= 1,
            ;
        }
        r * (self.l - 1) + c
    }

    /// Index of the vertical edge `(r,c) -> (r+1,c)`.
    fn v_idx(&self, r: usize, c: usize) -> (i: usize)
        requires
            self.l >= 1,
            r < self.l - 1,
            c < self.l,
            2 * self.l * self.l <= usize::MAX,
        ensures
            i == v_index(self.l as int, r as int, c as int),
    {
        proof {
            lemma_rm_bound(r as int, c as int, self.l - 1, self.l as int);
            let l = self.l as int;
            assert(l * (l - 1) <= l * l && (l - 1) * l <= l * l && l * (l - 1) == (l - 1) * l
                && l * (l - 1) + (l - 1) * l <= 2 * l * l) by (nonlinear_arith)
                requires
                    l >= 1,
            ;
        }
        self.l * (self.l - 1) + r * self.l + c
    }
}

/// Build the `l x l` lattice patch (`l >= 3`).
pub fn grid_graph(l: usize) -> (g: GridGraph)
    requires
        l >= 3,
        2 * l * l <= usize::MAX,
    ensures
        is_grid(g, l as int),
{
    let ghost li = l as int;
    proof {
        assert(l * l <= 2 * l * l && l * (l - 1) <= l * l && (l - 1) * (l - 1) <= l * l && 2 * l
            * (l - 1) <= 2 * l * l) by (nonlinear_arith)
            requires
                l >= 3,
        ;
        assert(0 * (li - 1) == 0 && 0 * li == 0);
    }
    let m = l - 1;
    let n_nodes = l * l;
    let mut edges: Vec<(u32, u32)> = Vec::new();
    for r in 0..l
        invariant
            li == l,
            l >= 3,
            2 * l * l <= usize::MAX,
            l * l <= usize::MAX,
            edges@.len() == r * (l - 1),
            forall|rr: int, cc: int|
                0 <= rr < r && 0 <= cc < l - 1 ==> #[trigger] edges@[h_index(li, rr, cc)] == (
                    node_id(li, rr, cc) as u32,
                    node_id(li, rr, cc + 1) as u32,
                ),
    {
        for c in 0..l - 1
            invariant
                li == l,
                l >= 3,
                r < l,
                2 * l * l <= usize::MAX,
                l * l <= usize::MAX,
                edges@.len() == r * (l - 1) + c,
                forall|rr: int, cc: int|
                    (0 <= rr < r && 0 <= cc < l - 1) || (rr == r && 0 <= cc < c) ==> #[trigger] edges@[h_index(li, rr, cc)] == (
                        node_id(li, rr, cc) as u32,
                        node_id(li, rr, cc + 1) as u32,
                    ),
        {
            proof {
                lemma_rm_bound(r as int, c as int + 1, li, li);
            }
            let ghost before = edges@;
            edges.push(((r * l + c) as u32, (r * l + c + 1) as u32));
            proof {
                assert forall|rr: int, cc: int|
                    (0 <= rr < r && 0 <= cc < l - 1) || (rr == r && 0 <= cc < c + 1) implies #[trigger] edges@[h_index(li, rr, cc)] == (
                        node_id(li, rr, cc) as u32,
                        node_id(li, rr, cc + 1) as u32,
                    ) by {
                    if rr != r || cc != c {
                        lemma_lex(rr, cc, r as int, c as int, li - 1);
                        assert(edges@[h_index(li, rr, cc)] == before[h_index(li, rr, cc)]);
                    }
                }
            }
        }
        proof {
            assert(r * (l - 1) + (l - 1) == (r + 1) * (l - 1)) by (nonlinear_arith);
        }
    }
    let ghost nh = li * (li - 1);
    for r in 0..l - 1
        invariant
            li == l,
            l >= 3,
            2 * l * l <= usize::MAX,
            l * l <= usize::MAX,
            nh == li * (li - 1),
            edges@.len() == nh + r * l,
            forall|rr: int, cc: int|
                0 <= rr < l && 0 <= cc < l - 1 ==> #[trigger] edges@[h_index(li, rr, cc)] == (
                    node_id(li, rr, cc) as u32,
                    node_id(li, rr, cc + 1) as u32,
                ),
            forall|rr: int, cc: int|
                0 <= rr < r && 0 <= cc < l ==> #[trigger] edges@[v_index(li, rr, cc)] == (
                    node_id(li, rr, cc) as u32,
                    node_id(li, rr + 1, cc) as u32,
                ),
    {
        for c in 0..l
            invariant
                li == l,
                l >= 3,
                r < l - 1,
                2 * l * l <= usize::MAX,
                l * l <= usize::MAX,
                nh == li * (li - 1),
                edges@.len() == nh + r * l + c,
                forall|rr: int, cc: int|
                    0 <= rr < l && 0 <= cc < l - 1 ==> #[trigger] edges@[h_index(li, rr, cc)] == (
                        node_id(li, rr, cc) as u32,
                        node_id(li, rr, cc + 1) as u32,
                    ),
                forall|rr: int, cc: int|
                    (0 <= rr < r && 0 <= cc < l) || (rr == r && 0 <= cc < c) ==> #[trigger] edges@[v_index(li, rr, cc)] == (
                        node_id(li, rr, cc) as u32,
                        node_id(li, rr + 1, cc) as u32,
                    ),
        {
            proof {
                lemma_rm_bound(r as int + 1, c as int, li, li);
                lemma_rm_bound(r as int, c as int, li, li);
            }
            let ghost before = edges@;
            edges.push(((r * l + c) as u32, ((r + 1) * l + c) as u32));
            proof {
                assert forall|rr: int, cc: int|
                    0 <= rr < l && 0 <= cc < l - 1 implies #[trigger] edges@[h_index(li, rr, cc)] == (
                        node_id(li, rr, cc) as u32,
                        node_id(li, rr, cc + 1) as u32,
                    ) by {
                    lemma_rm_bound(rr, cc, li, li - 1);
                    assert(li * (li - 1) == nh);
                    assert(edges@[h_index(li, rr, cc)] == before[h_index(li, rr, cc)]);
                }
                assert forall|rr: int, cc: int|
                    (0 <= rr < r && 0 <= cc < l) || (rr == r && 0 <= cc < c + 1) implies #[trigger] edges@[v_index(li, rr, cc)] == (
                        node_id(li, rr, cc) as u32,
                        node_id(li, rr + 1, cc) as u32,
                    ) by {
                    if rr != r || cc != c {
                        lemma_lex(rr, cc, r as int, c as int, li);
                        assert(edges@[v_index(li, rr, cc)] == before[v_index(li, rr, cc)]);
                    }
                }
            }
        }
        proof {
            assert(r * l + l == (r + 1) * l) by (nonlinear_arith);
        }
    }
    let n_edges = edges.len();
    proof {
        assert(nh + (li - 1) * li == 2 * li * (li - 1)) by (nonlinear_arith)
            requires
                nh == li * (li - 1),
        ;
    }
    let mut g = GridGraph { l, m, n_nodes, n_edges, edges, plaquettes: Vec::new() };
    for r in 0..m
        invariant
            li == l,
            l >= 3,
            m == l - 1,
            2 * l * l <= usize::MAX,
            l * l <= usize::MAX,
            g.l == l,
            g.plaquettes@.len() == r * m,
            forall|rr: int, cc: int|
                0 <= rr < r && 0 <= cc < m ==> #[trigger] g.plaquettes@[plaq_index(m as int, rr, cc)]
                    == plaquette_steps(li, rr, cc),
            g.m == m,
            g.n_nodes == n_nodes,
            n_nodes == l * l,
            g.n_edges == 2 * li * (li - 1),
            g.edges@.len() == g.n_edges,
            forall|rr: int, cc: int|
                0 <= rr < l && 0 <= cc < l - 1 ==> #[trigger] g.edges@[h_index(li, rr, cc)] == (
                    node_id(li, rr, cc) as u32,
                    node_id(li, rr, cc + 1) as u32,
                ),
            forall|rr: int, cc: int|
                0 <= rr < l - 1 && 0 <= cc < l ==> #[trigger] g.edges@[v_index(li, rr, cc)] == (
                    node_id(li, rr, cc) as u32,
                    node_id(li, rr + 1, cc) as u32,
                ),
    {
        for c in 0..m
            invariant
                li == l,
                l >= 3,
                m == l - 1,
                r < m,
                2 * l * l <= usize::MAX,
                l * l <= usize::MAX,
                g.l == l,
                g.plaquettes@.len() == r * m + c,
                forall|rr: int, cc: int|
                    (0 <= rr < r && 0 <= cc < m) || (rr == r && 0 <= cc < c) ==> #[trigger] g.plaquettes@[plaq_index(
                        m as int,
                        rr,
                        cc,
                    )] == plaquette_steps(li, rr, cc),
                g.m == m,
                g.n_nodes == n_nodes,
                n_nodes == l * l,
                g.n_edges == 2 * li * (li - 1),
                g.edges@.len() == g.n_edges,
                forall|rr: int, cc: int|
                    0 <= rr < l && 0 <= cc < l - 1 ==> #[trigger] g.edges@[h_index(li, rr, cc)] == (
                        node_id(li, rr, cc) as u32,
                        node_id(li, rr, cc + 1) as u32,
                    ),
                forall|rr: int, cc: int|
                    0 <= rr < l - 1 && 0 <= cc < l ==> #[trigger] g.edges@[v_index(li, rr, cc)] == (
                        node_id(li, rr, cc) as u32,
                        node_id(li, rr + 1, cc) as u32,
                    ),
        {
            let a = g.h_idx(r, c);
            let b = g.v_idx(r, c + 1);
            let d = g.h_idx(r + 1, c);
            let e = g.v_idx(r, c);
            let ghost before = g.plaquettes@;
            g.plaquettes.push([(a, true), (b, true), (d, false), (e, false)]);
            proof {
                assert forall|rr: int, cc: int|
                    (0 <= rr < r && 0 <= cc < m) || (rr == r && 0 <= cc < c + 1) implies #[trigger] g.plaquettes@[plaq_index(
                        m as int,
                        rr,
                        cc,
                    )] == plaquette_steps(li, rr, cc) by {
                    if rr != r || cc != c {
                        lemma_lex(rr, cc, r as int, c as int, m as int);
                        assert(g.plaquettes@[plaq_index(m as int, rr, cc)] == before[plaq_index(
                            m as int,
                            rr,
                            cc,
                        )]);
                    } else {
                        assert(g.plaquettes@[plaq_index(m as int, rr, cc)] == [(a, true), (b, true), (d, false), (e, false)]);
                    }
                }
            }
        }
        proof {
            assert(r * m + m == (r + 1) * m) by (nonlinear_arith);
        }
    }
    g
}

/// Every plaquette is a closed walk around its unit square:
/// `(r,c) -> (r,c+1) -> (r+1,c+1) -> (r+1,c) -> (r,c)`.
pub proof fn lemma_plaquette_closed(g: GridGraph, l: int, r: int, c: int)
    requires
        is_grid(g, l),
        l >= 3,
        2 * l * l <= usize::MAX,
        0 <= r < l - 1,
        0 <= c < l - 1,
    ensures
        step_from(g.edges@, g.plaquettes@[plaq_index(l - 1, r, c)][0]) == node_id(l, r, c) as u32,
        step_to(g.edges@, g.plaquettes@[plaq_index(l - 1, r, c)][0]) == step_from(
            g.edges@,
            g.plaquettes@[plaq_index(l - 1, r, c)][1],
        ),
        step_to(g.edges@, g.plaquettes@[plaq_index(l - 1, r, c)][0]) == node_id(l, r, c + 1) as u32,
        step_to(g.edges@, g.plaquettes@[plaq_index(l - 1, r, c)][1]) == step_from(
            g.edges@,
            g.plaquettes@[plaq_index(l - 1, r, c)][2],
        ),
        step_to(g.edges@, g.plaquettes@[plaq_index(l - 1, r, c)][1]) == node_id(l, r + 1, c + 1) as u32,
        step_to(g.edges@, g.plaquettes@[plaq_index(l - 1, r, c)][2]) == step_from(
            g.edges@,
            g.plaquettes@[plaq_index(l - 1, r, c)][3],
        ),
        step_to(g.edges@, g.plaquettes@[plaq_index(l - 1, r, c)][2]) == node_id(l, r + 1, c) as u32,
        step_to(g.edges@, g.plaquettes@[plaq_index(l - 1, r, c)][3]) == node_id(l, r, c) as u32,
{
    let p = g.plaquettes@[plaq_index(l - 1, r, c)];
    assert(p == plaquette_steps(l, r, c));
    lemma_indices_small(l, r, c);
    assert(g.edges@[h_index(l, r, c)] == (node_id(l, r, c) as u32, node_id(l, r, c + 1) as u32));
    assert(g.edges@[v_index(l, r, c + 1)] == (node_id(l, r, c + 1) as u32, node_id(l, r + 1, c + 1) as u32));
    assert(g.edges@[h_index(l, r + 1, c)] == (node_id(l, r + 1, c) as u32, node_id(l, r + 1, c + 1) as u32));
    assert(g.edges@[v_index(l, r, c)] == (node_id(l, r, c) as u32, node_id(l, r + 1, c) as u32));
}

/// The edge indices a plaquette names are small.
proof fn lemma_indices_small(l: int, r: int, c: int)
    requires
        l >= 3,
        2 * l * l <= usize::MAX,
        0 <= r < l - 1,
        0 <= c < l - 1,
    ensures
        0 <= h_index(l, r, c) <= usize::MAX,
        0 <= h_index(l, r + 1, c) <= usize::MAX,
        0 <= v_index(l, r, c) <= usize::MAX,
        0 <= v_index(l, r, c + 1) <= usize::MAX,
{
    assert(0 <= r * (l - 1) + c && r * (l - 1) + c <= 2 * l * l && (r + 1) * (l - 1) + c <= 2 * l
        * l && 0 <= (r + 1) * (l - 1) + c && 0 <= l * (l - 1) + r * l + c && l * (l - 1) + r * l + c
        <= 2 * l * l && l * (l - 1) + r * l + c + 1 <= 2 * l * l) by (nonlinear_arith)
        requires
            l >= 3,
            0 <= r < l - 1,
            0 <= c < l - 1,
    ;
}

/// Column block `b` of `n_blocks` uniform blocks over `m` columns: `[b*m/n, max((b+1)*m/n,
/// b*m/n + 1))`.
pub fn col_block(b: usize, m: usize, n_blocks: usize) -> (r: (usize, usize))
    requires
        n_blocks > 0,
        b + 1 <= usize::MAX,
        (b + 1) * m <= usize::MAX,
    ensures
        r.0 == b * m / (n_blocks as int),
        r.1 == if (b + 1) * m / (n_blocks as int) > b * m / (n_blocks as int) + 1 {
            (b + 1) * m / (n_blocks as int)
        } else {
            b * m / (n_blocks as int) + 1
        },
{
    proof {
        assert(b * m <= (b + 1) * m) by (nonlinear_arith);
        assert(b * m / (n_blocks as int) <= b * m) by (nonlinear_arith)
            requires
                n_blocks >= 1,
                b * m >= 0,
        ;
        assert((b + 1) * m == b * m + m) by (nonlinear_arith);
        assert(b * m / (n_blocks as int) + 1 <= usize::MAX) by (nonlinear_arith)
            requires
                n_blocks >= 1,
                b * m >= 0,
                b * m / (n_blocks as int) <= b * m,
                b * m + m <= usize::MAX,
                b + 1 <= usize::MAX,
        ;
    }
    let c0 = b * m / n_blocks;
    let e = (b + 1) * m / n_blocks;
    let c1 = if e > c0 + 1 {
        e
    } else {
        c0 + 1
    };
    (c0, c1)
}

} // verus!
