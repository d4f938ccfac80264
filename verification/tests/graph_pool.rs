use nagare::mesh_tensor::{check_mesh, MeshError};
use nagare::ops::oriented_head::claim_nodes;
use nagare::tabular_graph::signed_cycle_pool;

#[test]
fn cycle_pool_takes_signs_of_both_orientations() {
    // Edges 0-1 (+1), 1-2 (-1), 0-2 (-1); one triangle listed as 2, 1, 0.
    let (eu, ev, es) = (vec![0u32, 1, 0], vec![1u32, 2, 2], vec![1i8, -1, -1]);
    let cycles = vec![vec![2u32, 1, 0]];
    let (flat, signs) = signed_cycle_pool(&cycles, 3, &eu, &ev, &es);
    assert_eq!(flat, vec![2, 1, 0]);
    // 2->1 uses edge 1-2 (-1), 1->0 uses 0-1 (+1), 0->2 closes on 0-2 (-1).
    assert_eq!(signs, vec![-1, 1, -1]);
}

#[test]
fn cycle_pool_defaults_to_plus_one_and_later_edges_override() {
    let (eu, ev, es) = (vec![0u32, 1], vec![1u32, 0], vec![-1i8, 1]);
    let cycles = vec![vec![0u32, 1, 5, 9], vec![1u32, 0, 7]];
    let (flat, signs) = signed_cycle_pool(&cycles, 3, &eu, &ev, &es);
    assert_eq!(flat, vec![0, 1, 5, 1, 0, 7]);
    // 0-1 registered twice: the later edge (1, 0, +1) wins; 1->5 and 5->0 are no edges.
    assert_eq!(signs, vec![1, 1, 1, 1, 1, 1]);
}

#[test]
fn claims_are_first_come_one_per_leaf() {
    // A 4x4 image split into four 2x2 leaves numbered row-major by quadrant.
    let g = 4;
    let assign: Vec<u32> = (0..g * g)
        .map(|p| ((p / g) / 2 * 2 + (p % g) / 2) as u32)
        .collect();
    let centers = vec![
        Some((0, 0)),
        Some((1, 1)),
        None,
        Some((3, 0)),
        Some((2, 3)),
        Some((0, 3)),
    ];
    let claims = claim_nodes(&centers, &assign, 4, g);
    assert_eq!(claims, vec![(0, 0), (2, 3), (3, 4), (1, 5)]);
    let mut nodes: Vec<usize> = claims.iter().map(|c| c.0).collect();
    nodes.sort();
    nodes.dedup();
    assert_eq!(nodes.len(), claims.len());
}

#[test]
fn mesh_checks_in_order() {
    assert_eq!(check_mesh(&vec![0, 1, 2, 1, 2, 3], 6, 4, 4, 3), Ok(2));
    assert_eq!(check_mesh(&vec![0, 1, 2], 3, 2, 2, 0), Err(MeshError::ZeroArity));
    assert_eq!(check_mesh(&vec![0, 1, 2, 1], 4, 4, 4, 3), Err(MeshError::RaggedCorners));
    assert_eq!(check_mesh(&vec![0, 1, 2], 2, 4, 4, 3), Err(MeshError::SignCount));
    assert_eq!(check_mesh(&vec![0, 1, 2], 3, 3, 4, 3), Err(MeshError::ScaleCount));
    // The corner 9 is out of range for 2 nodes.
    assert_eq!(check_mesh(&vec![0, 1, 9], 3, 2, 2, 3), Err(MeshError::CornerOutOfRange));
}
