use nagare::ops::quadtree::quadtree_build_by;

fn mean_energy(energy: &[f32], g: usize, cell: [usize; 4]) -> f32 {
    let [y0, x0, y1, x1] = cell;
    let mut e = 0.0f32;
    for i in y0..y1 {
        for j in x0..x1 {
            e += energy[i * g + j];
        }
    }
    e / (((y1 - y0) * (x1 - x0)).max(1)) as f32
}

fn check_partition(cells: &[[usize; 4]], assign: &[u32], g: usize) {
    assert_eq!(assign.len(), g * g);
    for p in 0..g * g {
        let (i, j) = (p / g, p % g);
        let owners: Vec<usize> = (0..cells.len())
            .filter(|&t| {
                let c = cells[t];
                c[0] <= i && i < c[2] && c[1] <= j && j < c[3]
            })
            .collect();
        assert_eq!(owners, vec![assign[p] as usize], "pixel {p} not in exactly its leaf");
    }
}

#[test]
fn concentrates_on_high_energy_region() {
    let g = 32;
    let mut energy = vec![0.0f32; g * g];
    for i in 0..g / 2 {
        for j in 0..g / 2 {
            energy[i * g + j] = 1.0;
        }
    }
    let qt = quadtree_build_by(g, 5, 1, &|c: [usize; 4]| mean_energy(&energy, g, c) > 0.1);
    check_partition(&qt.cells, &qt.assign, g);
    let side = |c: &[usize; 4]| (c[2] - c[0]) as f32;
    let inq = |c: &[usize; 4]| c[0] < g / 2 && c[1] < g / 2;
    let hi: Vec<f32> = qt.cells.iter().filter(|c| inq(c)).map(side).collect();
    let lo: Vec<f32> = qt.cells.iter().filter(|c| !inq(c)).map(side).collect();
    let mean = |v: &[f32]| v.iter().sum::<f32>() / v.len().max(1) as f32;
    assert!(mean(&hi) < mean(&lo));
}

#[test]
fn never_splitting_gives_one_leaf() {
    let qt = quadtree_build_by(8, 4, 1, &|_c: [usize; 4]| false);
    assert_eq!(qt.cells, vec![[0, 0, 8, 8]]);
    assert!(qt.assign.iter().all(|&a| a == 0));
}

#[test]
fn always_splitting_stops_at_depth_and_side() {
    // Depth limit 1: the root splits once into its four quadrants, in order.
    let qt = quadtree_build_by(8, 1, 1, &|_c: [usize; 4]| true);
    assert_eq!(
        qt.cells,
        vec![[0, 0, 4, 4], [0, 4, 4, 8], [4, 0, 8, 4], [4, 4, 8, 8]]
    );
    assert_eq!(qt.assign[0], 0);
    assert_eq!(qt.assign[7], 1);
    assert_eq!(qt.assign[8 * 7], 2);
    assert_eq!(qt.assign[63], 3);
    // Minimum side 2 on a 4-wide image: the root splits, the 2-wide quadrants do not.
    let qt = quadtree_build_by(4, 10, 2, &|_c: [usize; 4]| true);
    assert_eq!(qt.cells.len(), 4);
    // Unlimited depth with side 1 refines down to single pixels.
    let qt = quadtree_build_by(4, 10, 1, &|_c: [usize; 4]| true);
    assert_eq!(qt.cells.len(), 16);
    check_partition(&qt.cells, &qt.assign, 4);
}

#[test]
fn odd_image_side_is_still_partitioned() {
    let qt = quadtree_build_by(7, 3, 1, &|c: [usize; 4]| c[0] == 0);
    check_partition(&qt.cells, &qt.assign, 7);
    assert!(qt.cells.len() > 1);
}

#[test]
fn single_pixel_image() {
    let qt = quadtree_build_by(1, 3, 1, &|_c: [usize; 4]| true);
    assert_eq!(qt.cells, vec![[0, 0, 1, 1]]);
    assert_eq!(qt.assign, vec![0]);
}
