use nagare::ops::fsr_mixer::{fsr_lanes, gather_rows};

#[test]
fn lanes_of_a_single_sequence() {
    let selected = vec![0u32, 0, 0, 1, 2, 1];
    let l = fsr_lanes(&selected, 1, 3, 2, 3).expect("admissible route");
    assert_eq!(l.query_of, vec![0, 0, 1, 1, 2, 2]);
    assert_eq!(l.offset_of, vec![0, 0, 1, 0, 0, 1]);
    assert_eq!(l.source_of, vec![0, 0, 0, 1, 2, 1]);
}

#[test]
fn lanes_across_a_batch_clamp_future_sources() {
    let selected = vec![0u32, 1, 1, 0];
    let l = fsr_lanes(&selected, 2, 2, 1, 2).expect("admissible route");
    assert_eq!(l.query_of, vec![0, 1, 2, 3]);
    // Pair 2 selects a source after its query: the offset clamps to 0.
    assert_eq!(l.offset_of, vec![0, 0, 0, 1]);
    assert_eq!(l.source_of, vec![0, 1, 3, 2]);
}

#[test]
fn inadmissible_routes_are_refused() {
    // A source outside the sequence.
    assert!(fsr_lanes(&vec![0u32, 3], 1, 2, 1, 2).is_none());
    // An offset without a rotor (max_seq_len 1 admits offset 0 only).
    assert!(fsr_lanes(&vec![0u32, 0], 1, 2, 1, 1).is_none());
    assert!(fsr_lanes(&vec![], 0, 4, 2, 1).is_some());
}

#[test]
fn rows_are_gathered_by_index() {
    let table = vec![10, 11, 20, 21, 30, 31];
    assert_eq!(gather_rows(&table, 2, &vec![2, 0, 2]), vec![30, 31, 10, 11, 30, 31]);
    assert!(gather_rows(&table, 2, &vec![]).is_empty());
    let f: Vec<f32> = vec![0.5, 1.5, 2.5];
    assert_eq!(gather_rows(&f, 1, &vec![1, 1]), vec![1.5, 1.5]);
}
