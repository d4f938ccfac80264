use nagare::tabular::{shuffled_order, split_order};

#[test]
fn shuffled_order_matches_the_lcg_fisher_yates() {
    assert_eq!(
        shuffled_order(20, 7),
        vec![8, 1, 9, 6, 19, 14, 15, 13, 2, 12, 7, 10, 18, 0, 4, 3, 16, 5, 17, 11]
    );
    assert_eq!(shuffled_order(5, 0), vec![0, 2, 3, 1, 4]);
    assert_eq!(shuffled_order(1, 3), vec![0]);
    assert!(shuffled_order(0, 3).is_empty());
}

#[test]
fn split_is_disjoint_and_covers() {
    // 20 rows, test fraction 0.25 -> cut at 15.
    let order = shuffled_order(20, 7);
    let (tr, te) = split_order(&order, 15);
    assert_eq!(tr.len() + te.len(), 20);
    assert_eq!(tr.len(), 15);
    let mut all: Vec<usize> = tr.iter().chain(&te).copied().collect();
    all.sort();
    all.dedup();
    assert_eq!(all.len(), 20, "split not a partition");
}

#[test]
fn split_keeps_the_order() {
    let order = vec![3, 0, 2, 1];
    assert_eq!(split_order(&order, 0), (vec![], vec![3, 0, 2, 1]));
    assert_eq!(split_order(&order, 3), (vec![3, 0, 2], vec![1]));
    assert_eq!(split_order(&order, 4), (vec![3, 0, 2, 1], vec![]));
}

#[test]
fn same_seed_same_order_other_seed_other_order() {
    assert_eq!(shuffled_order(32, 41), shuffled_order(32, 41));
    assert_ne!(shuffled_order(32, 41), shuffled_order(32, 42));
}
