# nagare

The structural core of the Nagare holonomy learner, written in Verus: the functions
in `src/` carry `requires`/`ensures` contracts that Verus proves, except the two small
wrappers around `rand` in `src/datasets.rs` (seeding a `StdRng` and shuffling a slice),
whose contracts are trusted: the shuffle is only stated to permute its items.

## Layout

- `src/junction_tree.rs` — clique trees for the multifrontal Cholesky solver: balanced
  and star builders, validation with exact error reporting, the elimination post-order
  (each clique exactly once, children before parents) and the flat storage layout.
- `src/ops/quadtree.rs`, `src/ops/oriented_head.rs` — the adaptive quadtree partition
  (every pixel in exactly one leaf) and the first-come assignment of objects to leaves.
- `src/ops/patch_projection.rs` — the N-D patch gather map, a partition of the input.
- `src/ops/cpml_tier.rs` — tier routing of cycles and vertex incidence counts.
- `src/ops/fsr_mixer.rs`, `src/ops/signed_scatter.rs` — routing lanes and offsets of the
  sequence mixer and the signed scatter.
- `src/curvature_field.rs`, `src/curvature_task.rs` — grid and wheel connection graphs
  (closed plaquettes and cycles) and the deterministic generator.
- `src/datasets.rs`, `src/tabular.rs`, `src/tabular_graph.rs`, `src/cv_data.rs` — task
  names, minibatch gathering and point-order shuffles, CSV records and class indexing,
  the seeded train/test split, the signed cycle pool layout and the image file layouts.
- `src/learner.rs`, `src/mesh_tensor.rs`, `src/vision.rs` and the remaining `src/ops/`
  files — configuration types, stress schedules, dimension and index formulas.
- `tests/` — executable tests of the library.
- `app/` — the floating-point kernels, random sampling and file I/O around the library,
  in ordinary Rust.
