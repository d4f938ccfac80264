use nagare::ops::patch_projection::{gather_map, unravel, PatchCache, PatchConfig};

#[test]
fn gather_covers_every_cell_once() {
    // A partition: each input cell appears in exactly one patch (non-overlapping).
    let cfg = PatchConfig::new(vec![4, 6], vec![2, 3], 2, 4);
    let map = gather_map(&cfg);
    let mut seen = vec![0u32; cfg.input_len()];
    for cells in &map {
        for &c in cells {
            seen[c] += 1;
        }
    }
    assert!(
        seen.iter().all(|&s| s == 1),
        "patchify is not a clean partition"
    );
}

#[test]
fn patch_counts_generalise_over_rank() {
    // 3-D grid 4x4x2, patch 2x2x1, 3 channels -> (4/2)(4/2)(2/1) = 8 patches.
    let cfg = PatchConfig::new(vec![4, 4, 2], vec![2, 2, 1], 3, 5);
    assert_eq!(cfg.n_patches(), 8);
    assert_eq!(cfg.patch_vol(), 12);
    assert_eq!(cfg.cell_count(), 32);
    assert_eq!(cfg.input_len(), 96);
    assert_eq!(cfg.proj_dim, 5);
    let map = gather_map(&cfg);
    assert_eq!(map.len(), 8);
    assert!(map.iter().all(|row| row.len() == 12));
}

#[test]
fn gather_map_first_patch_reads_top_left_block() {
    // 4x6 grid, 2x3 patches, 2 channels: patch 0 covers rows 0..2, cols 0..3.
    let cfg = PatchConfig::new(vec![4, 6], vec![2, 3], 2, 4);
    let map = gather_map(&cfg);
    assert_eq!(map.len(), 4);
    // slot v reads cell (v / 2) of the patch, channel v % 2; cell index = row*6 + col.
    assert_eq!(map[0], vec![0, 1, 2, 3, 4, 5, 12, 13, 14, 15, 16, 17]);
    // patch 1 is the block at rows 0..2, cols 3..6.
    assert_eq!(map[1], vec![6, 7, 8, 9, 10, 11, 18, 19, 20, 21, 22, 23]);
    // patch 3 (row block 1, col block 1) starts at cell (2, 3).
    assert_eq!(map[3][0], (2 * 6 + 3) * 2);
}

#[test]
fn unravel_is_row_major() {
    assert_eq!(unravel(0, &vec![2, 3]), vec![0, 0]);
    assert_eq!(unravel(4, &vec![2, 3]), vec![1, 1]);
    assert_eq!(unravel(5, &vec![2, 3]), vec![1, 2]);
    assert_eq!(unravel(23, &vec![2, 3, 4]), vec![1, 2, 3]);
}

#[test]
fn cache_holds_the_gather_map() {
    let cfg = PatchConfig::new(vec![4, 6], vec![2, 3], 2, 4);
    let cache = PatchCache::new(&cfg, 3);
    let map = gather_map(&cfg);
    assert_eq!(cache.n(), 3);
    assert_eq!(cache.input_len(), 48);
    assert_eq!(cache.n_patches(), 4);
    for q in 0..map.len() {
        assert_eq!(cache.patch_cells(q), &map[q]);
        for v in 0..map[q].len() {
            assert_eq!(cache.cell(q, v), map[q][v]);
        }
    }
}

#[test]
fn patches_tile_the_grid_exactly() {
    let cfg = PatchConfig::new(vec![6, 4, 3], vec![3, 2, 1], 2, 1);
    assert_eq!(cfg.n_patches() * cfg.patch_vol(), cfg.cell_count() * cfg.channels);
    assert_eq!(cfg.n_patches(), 12);
    assert_eq!(cfg.patch_vol(), 12);
}
