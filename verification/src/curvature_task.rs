//! The wheel connection graph of the curvature-discriminating task, and the deterministic
//! generator of the task's samples.
//!
//! Topology: a **wheel** with hub node `0` and rim nodes `1..=n_rim` in a cycle. The star
//! (spokes) is a spanning tree; the rim edges are the cotree, one per triangular plaquette
//! `{0, i, i+1}`, so there are `n_rim` fundamental cycles. Edge layout is
//! `[spokes (n_rim), rim (n_rim)]`.
use vstd::prelude::*;

verus! {

/// Multiplier of the generator's linear congruence.
pub const LCG_MUL: u64 = 6364136223846793005;

/// Increment of the generator's linear congruence.
pub const LCG_INC: u64 = 1442695040888963407;

/// One step of the generator's state: `state * LCG_MUL + LCG_INC` modulo `2^64`.
pub open spec fn lcg_step(s: u64) -> u64 {
    vstd::wrapping::u64_specs::wrapping_add(
        vstd::wrapping::u64_specs::wrapping_mul(s, LCG_MUL),
        LCG_INC,
    )
}

/// Deterministic linear-congruential generator. A uniform draw in `[0, 1)` is the high
/// 32 bits of the advanced state divided by `2^32`.
pub struct Rng(pub u64);

impl Rng {
    /// Advance the state one step and return its high 32 bits.
    pub fn next_u32(&mut self) -> (r: u32)
        ensures
            final(self).0 == lcg_step(old(self).0),
            r == final(self).0 >> 32u64,
    {
        let st = self.0.wrapping_mul(LCG_MUL).wrapping_add(LCG_INC);
        self.0 = st;
        let hi = st >> 32u64;
        assert(hi <= u32::MAX) by (bit_vector)
            requires
                hi == st >> 32u64,
        ;
        hi as u32
    }
}

/// The wheel connection graph: fixed topology plus the tree / cotree / plaquette structure.
#[derive(Clone, Debug)]
pub struct ConnGraph {
    /// Total nodes: hub `0` + rim `1..=n_rim`.
    pub n_nodes: usize,
    /// Rim size = number of triangular plaquettes = number of cotree edges.
    pub n_rim: usize,
    /// Directed edges `(u, v)`; a rotor transports `frame_u -> frame_v`.
    pub edges: Vec<(u32, u32)>,
    /// Spanning-tree edge indices (the spokes).
    pub tree: Vec<usize>,
    /// Cotree edge indices (the rim edges), one per fundamental cycle.
    pub cotree: Vec<usize>,
    /// Per non-root node: `(node, parent_edge_index, forward?)`; `forward` means the
    /// stored edge points parent to node.
    pub tree_transport: Vec<(usize, usize, bool)>,
    /// Fundamental cycles as ordered `[edge_index; 3]` with traversal directions.
    pub cycles: Vec<[(usize, bool); 3]>,
}

/// Edge `e` of the wheel with `n` rim nodes: spoke `e` is `0 -> 1+e`, rim edge `n+i` is
/// `1+i -> 1+(i+1)%n`.
pub open spec fn wheel_edge(n: int, e: int) -> (u32, u32) {
    if e < n {
        (0u32, (1 + e) as u32)
    } else {
        ((1 + (e - n)) as u32, (1 + (e - n + 1) % n) as u32)
    }
}

/// Fundamental cycle `p`: spoke `p` forward, rim edge `n+p` forward, spoke `(p+1)%n`
/// reversed.
pub open spec fn wheel_cycle(n: int, p: int) -> [(usize, bool); 3] {
    [(p as usize, true), ((n + p) as usize, true), (((p + 1) % n) as usize, false)]
}

/// The node a directed traversal step of `edges` starts from.
pub open spec fn step_from(edges: Seq<(u32, u32)>, step: (usize, bool)) -> u32 {
    if step.1 {
        edges[step.0 as int].0
    } else {
        edges[step.0 as int].1
    }
}

/// The node a directed traversal step of `edges` ends at.
pub open spec fn step_to(edges: Seq<(u32, u32)>, step: (usize, bool)) -> u32 {
    if step.1 {
        edges[step.0 as int].1
    } else {
        edges[step.0 as int].0
    }
}

/// The wheel graph has the documented layout: spokes then rim, star tree, rim cotree,
/// hub-to-rim transport, one triangle cycle per plaquette.
pub open spec fn is_wheel(g: ConnGraph, n: int) -> bool {
    &&& g.n_nodes == n + 1
    &&& g.n_rim == n
    &&& g.edges@.len() == 2 * n
    &&& forall|e: int| 0 <= e < 2 * n ==> #[trigger] g.edges@[e] == wheel_edge(n, e)
    &&& g.tree@ == Seq::new(n as nat, |i: int| i as usize)
    &&& g.cotree@ == Seq::new(n as nat, |i: int| (n + i) as usize)
    &&& g.tree_transport@ == Seq::new(n as nat, |i: int| ((1 + i) as usize, i as usize, true))
    &&& g.cycles@.len() == n
    &&& forall|p: int| 0 <= p < n ==> #[trigger] g.cycles@[p] == wheel_cycle(n, p)
}

/// Build the wheel graph with `n_rim >= 3` triangular plaquettes.
pub fn wheel_graph(n_rim: usize) -> (g: ConnGraph)
    requires
        n_rim >= 3,
        2 * n_rim <= usize::MAX,
    ensures
        is_wheel(g, n_rim as int),
{
    let n_nodes = n_rim + 1;
    let ghost n = n_rim as int;
    let mut edges: Vec<(u32, u32)> = Vec::new();
    for i in 0..n_rim
        invariant
            n == n_rim,
            2 * n_rim <= usize::MAX,
            edges@.len() == i,
            forall|e: int| 0 <= e < i ==> #[trigger] edges@[e] == wheel_edge(n, e),
    {
        edges.push((0u32, (1 + i) as u32));
    }
    for i in 0..n_rim
        invariant
            n == n_rim,
            n_rim >= 3,
            2 * n_rim <= usize::MAX,
            edges@.len() == n_rim + i,
            forall|e: int| 0 <= e < n_rim + i ==> #[trigger] edges@[e] == wheel_edge(n, e),
    {
        let a = (1 + i) as u32;
        let b = (1 + (i + 1) % n_rim) as u32;
        edges.push((a, b));
        assert(edges@[n + i] == wheel_edge(n, n + i));
    }
    let mut tree: Vec<usize> = Vec::new();
    let mut cotree: Vec<usize> = Vec::new();
    let mut tree_transport: Vec<(usize, usize, bool)> = Vec::new();
    let mut cycles: Vec<[(usize, bool); 3]> = Vec::new();
    for i in 0..n_rim
        invariant
            n == n_rim,
            n_rim >= 3,
            2 * n_rim <= usize::MAX,
            tree@ == Seq::new(i as nat, |t: int| t as usize),
            cotree@ == Seq::new(i as nat, |t: int| (n + t) as usize),
            tree_transport@ == Seq::new(i as nat, |t: int| ((1 + t) as usize, t as usize, true)),
            cycles@.len() == i,
            forall|p: int| 0 <= p < i ==> #[trigger] cycles@[p] == wheel_cycle(n, p),
    {
        tree.push(i);
        cotree.push(n_rim + i);
        tree_transport.push((1 + i, i, true));
        cycles.push([(i, true), (n_rim + i, true), ((i + 1) % n_rim, false)]);
        assert(tree@ =~= Seq::new((i + 1) as nat, |t: int| t as usize));
        assert(cotree@ =~= Seq::new((i + 1) as nat, |t: int| (n + t) as usize));
        assert(tree_transport@ =~= Seq::new((i + 1) as nat, |t: int| ((1 + t) as usize, t as usize, true)));
    }
    ConnGraph { n_nodes, n_rim, edges, tree, cotree, tree_transport, cycles }
}

/// Every fundamental cycle of the wheel is a closed walk `0 -> 1+p -> 1+(p+1)%n -> 0`
/// through its plaquette, and every tree-transport edge points from the hub to its node.
pub proof fn lemma_wheel_cycles_closed(g: ConnGraph, n: int, p: int)
    requires
        is_wheel(g, n),
        n >= 3,
        2 * n <= usize::MAX,
        0 <= p < n,
    ensures
        step_from(g.edges@, g.cycles@[p][0]) == 0,
        step_to(g.edges@, g.cycles@[p][0]) == step_from(g.edges@, g.cycles@[p][1]),
        step_to(g.edges@, g.cycles@[p][0]) == (1 + p) as u32,
        step_to(g.edges@, g.cycles@[p][1]) == step_from(g.edges@, g.cycles@[p][2]),
        step_to(g.edges@, g.cycles@[p][1]) == (1 + (p + 1) % n) as u32,
        step_to(g.edges@, g.cycles@[p][2]) == 0,
        g.edges@[g.tree_transport@[p].1 as int].0 == 0,
        g.edges@[g.tree_transport@[p].1 as int].1 == g.tree_transport@[p].0 as u32,
        g.tree_transport@[p].2,
{
    let c = g.cycles@[p];
    assert(c == wheel_cycle(n, p));
    assert(g.edges@[p] == wheel_edge(n, p));
    assert(g.edges@[n + p] == wheel_edge(n, n + p));
    assert(g.edges@[(p + 1) % n] == wheel_edge(n, (p + 1) % n));
    assert(g.tree_transport@[p] == ((1 + p) as usize, p as usize, true));
}

} // verus!
