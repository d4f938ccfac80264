use nagare::ops::dihedral::DihedralGroup;

#[test]
fn order_counts() {
    assert_eq!(DihedralGroup::new(4, false).order(), 4); // C_4
    assert_eq!(DihedralGroup::new(4, true).order(), 8); // D_4
    assert_eq!(DihedralGroup::new(6, true).order(), 12);
}

#[test]
fn trivial_group_orders() {
    assert_eq!(DihedralGroup::new(1, false).order(), 1);
    assert_eq!(DihedralGroup::new(1, true).order(), 2);
    let g = DihedralGroup::new(8, true);
    assert_eq!((g.n, g.reflect), (8, true));
}
