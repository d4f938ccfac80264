use nagare::ops::cpml_tier::{cycle_incidence_degrees, tier_cycle_indices};

#[test]
fn tier_routing_covers_touching_cycles() {
    // 3 triangles over 5 vertices; tiers assigned by hand.
    let cycles = [0u32, 1, 2, 2, 3, 4, 0, 3, 4];
    let tier_of = [0usize, 0, 1, 2, 2];
    // tier 0: cycles touching v0 or v1 -> c0, c2.
    assert_eq!(tier_cycle_indices(&cycles, 3, &tier_of, 0), vec![0, 2]);
    // tier 1: cycles touching v2 -> c0, c1.
    assert_eq!(tier_cycle_indices(&cycles, 3, &tier_of, 1), vec![0, 1]);
    // tier 2: cycles touching v3 or v4 -> c1, c2.
    assert_eq!(tier_cycle_indices(&cycles, 3, &tier_of, 2), vec![1, 2]);
}

#[test]
fn incidence_degrees_count_corners() {
    let cycles = [0u32, 1, 2, 2, 3, 4, 0, 3, 4];
    let deg = cycle_incidence_degrees(&cycles, 5);
    assert_eq!(deg, vec![2, 1, 2, 2, 2]);
}

#[test]
fn tier_with_no_vertices_routes_nothing() {
    let cycles = [0u32, 1, 2, 2, 3, 4];
    let tier_of = [0usize, 0, 0, 0, 0];
    assert_eq!(tier_cycle_indices(&cycles, 3, &tier_of, 1), Vec::<usize>::new());
    assert_eq!(tier_cycle_indices(&cycles, 3, &tier_of, 0), vec![0, 1]);
}

#[test]
fn empty_cycle_pool_routes_nothing_and_counts_zero() {
    let cycles: [u32; 0] = [];
    let tier_of = [0usize, 1];
    assert!(tier_cycle_indices(&cycles, 2, &tier_of, 0).is_empty());
    assert_eq!(cycle_incidence_degrees(&cycles, 3), vec![0, 0, 0]);
}

#[test]
fn edge_routing_with_arity_two() {
    // Three edges 0-1, 1-2, 2-3 with tiers [0, 1, 1, 2].
    let cycles = [0u32, 1, 1, 2, 2, 3];
    let tier_of = [0usize, 1, 1, 2];
    assert_eq!(tier_cycle_indices(&cycles, 2, &tier_of, 1), vec![0, 1, 2]);
    assert_eq!(tier_cycle_indices(&cycles, 2, &tier_of, 2), vec![2]);
    assert_eq!(cycle_incidence_degrees(&cycles, 4), vec![1, 2, 2, 1]);
}
