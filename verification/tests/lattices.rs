use nagare::curvature_field::{col_block, grid_graph};
use nagare::curvature_task::{wheel_graph, Rng};

#[test]
fn grid_graph_edge_layout() {
    let g = grid_graph(3);
    assert_eq!((g.l, g.m, g.n_nodes, g.n_edges), (3, 2, 9, 12));
    assert_eq!(
        g.edges,
        vec![
            (0, 1), (1, 2), (3, 4), (4, 5), (6, 7), (7, 8),
            (0, 3), (1, 4), (2, 5), (3, 6), (4, 7), (5, 8),
        ]
    );
    assert_eq!(g.plaquettes.len(), 4);
    assert_eq!(g.plaquettes[0], [(0, true), (7, true), (2, false), (6, false)]);
    assert_eq!(g.plaquettes[3], [(3, true), (11, true), (5, false), (10, false)]);
}

#[test]
fn grid_plaquettes_are_closed_loops() {
    let g = grid_graph(5);
    assert_eq!(g.n_edges, 2 * 5 * 4);
    assert_eq!(g.plaquettes.len(), 16);
    for p in &g.plaquettes {
        // Walk the loop: each step starts where the previous one ended.
        let ends = |(e, fwd): (usize, bool)| {
            let (a, b) = g.edges[e];
            if fwd { (a, b) } else { (b, a) }
        };
        let start = ends(p[0]).0;
        let mut at = start;
        for &step in p.iter() {
            let (from, to) = ends(step);
            assert_eq!(from, at);
            at = to;
        }
        assert_eq!(at, start);
    }
}

#[test]
fn wheel_graph_layout() {
    let g = wheel_graph(4);
    assert_eq!((g.n_nodes, g.n_rim), (5, 4));
    assert_eq!(
        g.edges,
        vec![(0, 1), (0, 2), (0, 3), (0, 4), (1, 2), (2, 3), (3, 4), (4, 1)]
    );
    assert_eq!(g.tree, vec![0, 1, 2, 3]);
    assert_eq!(g.cotree, vec![4, 5, 6, 7]);
    assert_eq!(
        g.tree_transport,
        vec![(1, 0, true), (2, 1, true), (3, 2, true), (4, 3, true)]
    );
    assert_eq!(g.cycles[0], [(0, true), (4, true), (1, false)]);
    assert_eq!(g.cycles[3], [(3, true), (7, true), (0, false)]);
}

#[test]
fn wheel_cycles_return_to_the_hub() {
    let g = wheel_graph(6);
    for cyc in &g.cycles {
        let mut at = 0u32;
        for &(e, fwd) in cyc.iter() {
            let (a, b) = g.edges[e];
            let (from, to) = if fwd { (a, b) } else { (b, a) };
            assert_eq!(from, at);
            at = to;
        }
        assert_eq!(at, 0);
    }
}

#[test]
fn rng_steps_the_lcg() {
    let mut r = Rng(1);
    assert_eq!(r.next_u32(), 1817669548);
    assert_eq!(r.0, 7806831264735756412);
    assert_eq!(r.next_u32(), 2187888307);
    let mut z = Rng(0);
    assert_eq!(z.next_u32(), 335903614);
}

#[test]
fn column_blocks_cover_the_columns() {
    assert_eq!(col_block(0, 10, 3), (0, 3));
    assert_eq!(col_block(1, 10, 3), (3, 6));
    assert_eq!(col_block(2, 10, 3), (6, 10));
    // More blocks than columns: every block keeps at least one column.
    assert_eq!(col_block(0, 2, 4), (0, 1));
    assert_eq!(col_block(1, 2, 4), (0, 1));
    assert_eq!(col_block(3, 2, 4), (1, 2));
}
