use nagare::junction_tree::{
    balanced_binary_tree, post_order, star_clique_tree, validate_clique_tree, Clique,
    CliqueTreeError, CliqueTreeLayout,
};

fn clique(vars: Vec<usize>, n_res: usize, parent: Option<usize>) -> Clique {
    Clique { vars, n_res, parent }
}

#[test]
fn balanced_tree_shape_and_variables() {
    let (cl, d) = balanced_binary_tree(2, 1, 1);
    assert_eq!(cl.len(), 3);
    assert_eq!(d, 9);
    assert_eq!(cl[0].vars, vec![0, 1, 2]);
    assert_eq!((cl[0].n_res, cl[0].parent), (3, None));
    assert_eq!(cl[1].vars, vec![3, 4, 5, 0]);
    assert_eq!((cl[1].n_res, cl[1].parent), (3, Some(0)));
    assert_eq!(cl[2].vars, vec![6, 7, 8, 1]);
    assert_eq!((cl[2].n_res, cl[2].parent), (3, Some(0)));
}

#[test]
fn balanced_tree_is_heap_numbered() {
    let (cl, d) = balanced_binary_tree(4, 2, 3);
    assert_eq!(cl.len(), 15);
    assert_eq!(d, 15 * 7);
    for (i, c) in cl.iter().enumerate().skip(1) {
        assert_eq!(c.parent, Some((i - 1) / 2));
        assert_eq!(c.n_res, 7);
        assert_eq!(c.vars.len(), 9);
        // The separator is the parent's fresh block for this child.
        let p = (i - 1) / 2;
        let child = (i - 1) % 2;
        assert_eq!(&c.vars[7..], &cl[p].vars[child * 2..child * 2 + 2]);
    }
    assert_eq!(validate_clique_tree(&cl), Ok(()));
}

#[test]
fn star_tree_shares_one_separator() {
    let (cl, d) = star_clique_tree(3, 2, 1, 2);
    assert_eq!(d, 9);
    assert_eq!(cl.len(), 4);
    assert_eq!(cl[0].vars, vec![0, 1, 2]);
    assert_eq!((cl[0].n_res, cl[0].parent), (3, None));
    assert_eq!(cl[1].vars, vec![3, 4, 0, 1]);
    assert_eq!(cl[2].vars, vec![5, 6, 0, 1]);
    assert_eq!(cl[3].vars, vec![7, 8, 0, 1]);
    for c in &cl[1..] {
        assert_eq!((c.n_res, c.parent), (2, Some(0)));
    }
    assert_eq!(validate_clique_tree(&cl), Ok(()));
}

#[test]
fn post_order_visits_children_before_parents() {
    let (cl, _) = balanced_binary_tree(2, 1, 1);
    assert_eq!(post_order(&cl), vec![2, 1, 0]);
    let (cl, _) = balanced_binary_tree(3, 1, 1);
    assert_eq!(post_order(&cl), vec![6, 5, 2, 4, 3, 1, 0]);
    let (cl, _) = star_clique_tree(3, 2, 1, 2);
    assert_eq!(post_order(&cl), vec![3, 2, 1, 0]);
}

#[test]
fn post_order_with_root_not_first() {
    let cl = vec![
        clique(vec![0, 1], 1, Some(1)),
        clique(vec![1, 2], 2, None),
        clique(vec![3, 2], 1, Some(1)),
    ];
    assert_eq!(validate_clique_tree(&cl), Ok(()));
    assert_eq!(post_order(&cl), vec![2, 0, 1]);
}

#[test]
fn validate_reports_each_error() {
    let too_long = vec![clique(vec![0], 2, None)];
    assert_eq!(validate_clique_tree(&too_long), Err(CliqueTreeError::ResidualTooLong(0)));

    let self_parent = vec![clique(vec![0], 1, None), clique(vec![1], 1, Some(1))];
    assert_eq!(validate_clique_tree(&self_parent), Err(CliqueTreeError::BadParent(1)));

    let out_of_range = vec![clique(vec![0], 1, Some(5))];
    assert_eq!(validate_clique_tree(&out_of_range), Err(CliqueTreeError::BadParent(0)));

    let bad_sep = vec![clique(vec![0, 1], 2, None), clique(vec![2, 7], 1, Some(0))];
    assert_eq!(
        validate_clique_tree(&bad_sep),
        Err(CliqueTreeError::SeparatorNotInParent { clique: 1, var: 7 })
    );

    let two_roots = vec![clique(vec![0], 1, None), clique(vec![1], 1, None)];
    assert_eq!(validate_clique_tree(&two_roots), Err(CliqueTreeError::RootCount(2)));

    let no_root = vec![clique(vec![0], 1, Some(1)), clique(vec![1], 1, Some(0))];
    assert_eq!(validate_clique_tree(&no_root), Err(CliqueTreeError::RootCount(0)));

    // One root, but cliques 1 and 2 point at each other and never reach it.
    let cycle = vec![
        clique(vec![0], 1, None),
        clique(vec![1], 1, Some(2)),
        clique(vec![2], 1, Some(1)),
    ];
    assert_eq!(validate_clique_tree(&cycle), Err(CliqueTreeError::Cyclic(1)));
}

#[test]
fn layout_offsets_follow_block_sizes() {
    let (cl, _) = star_clique_tree(3, 2, 1, 2);
    let l = CliqueTreeLayout::new(cl);
    assert_eq!(l.n_cliques(), 4);
    assert_eq!(l.order, vec![3, 2, 1, 0]);
    assert_eq!(l.m, vec![3, 4, 4, 4]);
    assert_eq!(l.nres, vec![3, 2, 2, 2]);
    assert_eq!(l.nsep, vec![0, 2, 2, 2]);
    assert_eq!(l.foff, vec![0, 9, 25, 41]);
    assert_eq!(l.boff, vec![0, 3, 7, 11]);
    assert_eq!(l.loff, vec![0, 9, 13, 17]);
    assert_eq!(l.woff, vec![0, 0, 4, 8]);
    assert_eq!(l.yoff, vec![0, 3, 5, 7]);
    assert_eq!(l.sploc_off, vec![0, 0, 2, 4]);
    assert_eq!(l.sploc, vec![0, 1, 0, 1, 0, 1]);
    assert_eq!(
        (l.front_len, l.rhs_len, l.lfac_len, l.wblk_len, l.y_len),
        (57, 15, 21, 12, 9)
    );
    assert_eq!(l.factor_storage(), 57);
    assert_eq!(l.factor_flops(), 27 + 3 * 64);
}

#[test]
fn layout_assembly_map_finds_separator_in_parent() {
    let (cl, _) = balanced_binary_tree(2, 1, 1);
    let l = CliqueTreeLayout::new(cl);
    // Clique 1's separator is variable 0 (position 0 of the root), clique 2's is 1.
    assert_eq!(l.sploc, vec![0, 1]);
    assert_eq!(l.sploc_off, vec![0, 0, 1]);
}

#[test]
fn ancestors_run_from_leaf_to_root() {
    let (cl, _) = balanced_binary_tree(4, 1, 1);
    let l = CliqueTreeLayout::new(cl);
    assert_eq!(l.ancestors_inclusive(0), vec![0]);
    assert_eq!(l.ancestors_inclusive(9), vec![9, 4, 1, 0]);
    assert_eq!(l.ancestors_inclusive(14), vec![14, 6, 2, 0]);
}

#[test]
fn post_order_needs_only_the_tree_shape() {
    // Separators missing from the parent and residual counts too long: still a tree.
    let cl = vec![
        clique(vec![9], 5, Some(2)),
        clique(vec![7, 8], 0, Some(2)),
        clique(vec![], 0, None),
        clique(vec![1], 1, Some(0)),
    ];
    assert!(validate_clique_tree(&cl).is_err());
    let o = post_order(&cl);
    assert_eq!(o.len(), 4);
    assert_eq!(o[3], 2);
    let pos = |x: usize| o.iter().position(|&y| y == x).unwrap();
    for (i, c) in cl.iter().enumerate() {
        if let Some(p) = c.parent {
            assert!(pos(i) < pos(p));
        }
    }
    let mut sorted = o.clone();
    sorted.sort();
    assert_eq!(sorted, vec![0, 1, 2, 3]);
}

#[test]
fn balanced_tree_residuals_partition_the_variables() {
    let (cl, d) = balanced_binary_tree(3, 2, 1);
    let f = 1 + 2 * 2;
    let mut owner = vec![usize::MAX; d];
    for (i, c) in cl.iter().enumerate() {
        for &v in &c.vars[..c.n_res] {
            assert_eq!(owner[v], usize::MAX);
            owner[v] = i;
        }
    }
    for v in 0..d {
        assert_eq!(owner[v], v / f);
    }
    for p in 0..3 {
        let a = &cl[2 * p + 1].vars[f..];
        let b = &cl[2 * p + 2].vars[f..];
        assert!(a.iter().all(|x| !b.contains(x)));
        assert!(a.iter().all(|x| cl[p].vars.contains(x)));
    }
}

#[test]
fn star_child_separator_is_root_prefix() {
    let (cl, _) = star_clique_tree(3, 2, 1, 2);
    assert_eq!(cl[0].vars, vec![0, 1, 2]);
    for c in &cl[1..] {
        assert_eq!(c.vars.len(), 4);
        assert_eq!(&c.vars[2..], &cl[0].vars[..2]);
    }
}
