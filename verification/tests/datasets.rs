use nagare::datasets::{apply_point_orders, gather_batch, point_orders, shuffle_point_order, Task};
use std::str::FromStr;

fn sorted_sample_points(x: &[f32], points: usize, sample: usize) -> Vec<[u32; 2]> {
    let base = sample * points * 2;
    let mut pts: Vec<[u32; 2]> = (0..points)
        .map(|p| [x[base + p * 2].to_bits(), x[base + p * 2 + 1].to_bits()])
        .collect();
    pts.sort_unstable();
    pts
}

fn ramp(samples: usize, points: usize) -> Vec<f32> {
    (0..samples * points * 2).map(|i| i as f32 * 0.5 - 3.0).collect()
}

#[test]
fn task_names_round_trip() {
    for t in [Task::Moons, Task::Spiral, Task::Xor] {
        assert_eq!(Task::parse(t.as_str()), Some(t));
        assert_eq!(Task::from_str(t.as_str()), Ok(t));
    }
    assert_eq!(Task::Moons.as_str(), "moons");
    assert_eq!(Task::Spiral.as_str(), "spiral");
    assert_eq!(Task::Xor.as_str(), "xor");
}

#[test]
fn unknown_task_is_rejected_with_its_name() {
    assert_eq!(Task::parse("circles"), None);
    assert_eq!(Task::from_str("circles"), Err("unknown task 'circles'".to_string()));
    assert_eq!(Task::from_str("Moons"), Err("unknown task 'Moons'".to_string()));
    assert_eq!(Task::from_str(""), Err("unknown task ''".to_string()));
}

#[test]
fn gather_batch_takes_rows_in_index_order() {
    let (samples, points) = (6, 4);
    let x = ramp(samples, points);
    let y: Vec<usize> = (0..samples).map(|s| s % 2 + 10 * s).collect();
    let (bx, by) = gather_batch(&x, &y, points, &vec![2, 0]);
    let row = points * 2;
    assert_eq!(bx.len(), 2 * row);
    assert_eq!(by, vec![y[2], y[0]]);
    assert_eq!(&bx[..row], &x[2 * row..3 * row]);
    assert_eq!(&bx[row..], &x[0..row]);
}

#[test]
fn gather_batch_may_repeat_and_be_empty() {
    let x: Vec<u8> = (0..12).collect();
    let y = vec![7, 8, 9];
    let (bx, by) = gather_batch(&x, &y, 2, &vec![1, 1]);
    assert_eq!(bx, vec![4, 5, 6, 7, 4, 5, 6, 7]);
    assert_eq!(by, vec![8, 8]);
    let (bx, by) = gather_batch(&x, &y, 2, &vec![]);
    assert!(bx.is_empty() && by.is_empty());
}

#[test]
fn shuffle_preserves_shape_and_multiset() {
    let (samples, points) = (16, 24);
    let x = ramp(samples, points);
    let shuffled = shuffle_point_order(&x, samples, points, 99);
    assert_eq!(shuffled.len(), x.len());
    for sample in 0..samples {
        assert_eq!(
            sorted_sample_points(&shuffled, points, sample),
            sorted_sample_points(&x, points, sample),
            "sample {sample} must be a permutation of the same points"
        );
    }
}

#[test]
fn shuffle_depends_only_on_seed_and_reorders() {
    let (samples, points) = (8, 32);
    let x = ramp(samples, points);
    let a = shuffle_point_order(&x, samples, points, 41);
    let b = shuffle_point_order(&x, samples, points, 41);
    assert_eq!(a, b, "same seed must give identical output");
    let c = shuffle_point_order(&x, samples, points, 42);
    assert_ne!(a, c, "different seed must reorder differently");
    assert_ne!(a, x, "shuffle must actually reorder");
}

#[test]
fn point_orders_are_permutations_and_drive_the_shuffle() {
    let (samples, points) = (5, 9);
    let orders = point_orders(samples, points, 3);
    assert_eq!(orders.len(), samples);
    for o in &orders {
        let mut s = o.clone();
        s.sort();
        assert_eq!(s, (0..points).collect::<Vec<_>>());
    }
    let x = ramp(samples, points);
    assert_eq!(
        apply_point_orders(&x, samples, points, &orders),
        shuffle_point_order(&x, samples, points, 3)
    );
}

#[test]
fn apply_point_orders_moves_coordinate_pairs() {
    let x: Vec<i32> = vec![0, 1, 2, 3, 4, 5, 10, 11, 12, 13, 14, 15];
    let orders = vec![vec![2, 0, 1], vec![0, 1, 2]];
    assert_eq!(
        apply_point_orders(&x, 2, 3, &orders),
        vec![4, 5, 0, 1, 2, 3, 10, 11, 12, 13, 14, 15]
    );
}
