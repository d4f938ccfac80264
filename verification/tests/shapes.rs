use nagare::learner::{learner_params, stress_kinds, stress_seeds, GateMode, StressKind, StressSeeds};
use nagare::ops::catmull_rom::cr_control_indices;
use nagare::ops::conv2d::ConvShape;
use nagare::ops::hsikan::{chunk_ranges, sign_value, HsikanConfig, HsikanEdges, SplineKind};
use nagare::ops::kan::KanConfig;
use nagare::ops::kochanek_bartels::{base_tcb, control_indices};
use nagare::ops::oriented_descriptor::oriented_dim;
use nagare::ops::phase_pool::phase_pool_dim;
use nagare::ops::project_alpha_mix::ProjectAlphaMixShape;
use nagare::ops::rotor_spike::rotor_spike_dim;
use nagare::ops::signed_scatter::{
    pair_block_base, query_block_base, SignedScatterLanes, SignedScatterLayout,
};
use nagare::vision::{phase_feature_dim, PhaseFeature};
use nagare::{LOCAL_FEATURES, PROJECTION_RANK, STRUCTURAL_FEATURES, VERTEX_FEATURES};

#[test]
fn feature_constants() {
    assert_eq!(VERTEX_FEATURES, 7);
    assert_eq!(STRUCTURAL_FEATURES, 28);
    assert_eq!(LOCAL_FEATURES, 29);
    assert_eq!(PROJECTION_RANK, 6);
}

#[test]
fn conv_output_size() {
    let s = ConvShape { c_in: 3, h: 8, w: 10, pad: 1 };
    assert_eq!(s.out_hw(3, 3), (8, 10));
    let s = ConvShape { c_in: 1, h: 5, w: 5, pad: 0 };
    assert_eq!(s.out_hw(5, 2), (1, 4));
}

#[test]
fn descriptor_dimensions() {
    assert_eq!(oriented_dim(8), 6);
    assert_eq!(oriented_dim(7), 5);
    assert_eq!(phase_pool_dim(8), 5);
    assert_eq!(phase_pool_dim(1), 1);
    assert_eq!(rotor_spike_dim(12), 12);
    assert_eq!(phase_feature_dim(8, PhaseFeature::Raw), 8);
    assert_eq!(phase_feature_dim(8, PhaseFeature::Dft), 5);
    assert_eq!(phase_feature_dim(8, PhaseFeature::DftEntropy), 6);
    assert_eq!(phase_feature_dim(9, PhaseFeature::Dft), 5);
}

#[test]
fn spline_control_points_clamp() {
    assert_eq!(cr_control_indices(0, 6), [0, 0, 1, 2]);
    assert_eq!(cr_control_indices(2, 6), [1, 2, 3, 4]);
    assert_eq!(cr_control_indices(4, 6), [3, 4, 5, 5]);
    assert_eq!(cr_control_indices(5, 6), [4, 5, 5, 5]);
    assert_eq!(cr_control_indices(3, 1), [0, 0, 0, 0]);
    assert_eq!(control_indices(4, 6), cr_control_indices(4, 6));
    assert_eq!(base_tcb(2, 3, 5), 39);
    assert_eq!(base_tcb(0, 0, 5), 0);
}

#[test]
fn kan_shape() {
    let c = KanConfig::new(3, 2, 8, 4);
    assert_eq!((c.d_in, c.d_out, c.grid, c.cheb_k), (3, 2, 8, 4));
    assert_eq!(c.block(), 12);
}

#[test]
fn hsikan_config_and_branch_layout() {
    let c = HsikanConfig::new(10, 3, 4, 2, 6, 5, true);
    assert_eq!(c.spline_kind, SplineKind::ChebyshevCr);
    assert_eq!(c.n_rows(), 30);
    assert_eq!(c.branch_len(), 20);
    let kb = c.with_spline_kind(SplineKind::KochanekBartels);
    assert_eq!(kb.spline_kind, SplineKind::KochanekBartels);
    assert_eq!((kb.n_edges, kb.arity, kb.hidden, kb.n_branches), (10, 3, 4, 2));
    assert_eq!((kb.grid, kb.cheb_k, kb.use_highway), (6, 5, true));
    assert_eq!(kb.branch_len(), 4 * 6 * 4);
    assert_eq!(sign_value(0), 1);
    assert_eq!(sign_value(1), -1);
    assert_eq!(sign_value(7), -1);
    let v = [0u32, 1, 2];
    let s = [1i8, -1, 1];
    let e = HsikanEdges { vertices: &v, signs: &s };
    assert_eq!(e.vertices.len(), e.signs.len());
}

#[test]
fn chunk_ranges_cover_the_edges() {
    assert_eq!(chunk_ranges(10, 4), vec![(0, 4), (4, 8), (8, 10)]);
    assert_eq!(chunk_ranges(8, 4), vec![(0, 4), (4, 8)]);
    assert_eq!(chunk_ranges(3, 0), vec![(0, 1), (1, 2), (2, 3)]);
    assert_eq!(chunk_ranges(3, 100), vec![(0, 3)]);
    assert!(chunk_ranges(0, 4).is_empty());
}

#[test]
fn signed_scatter_offsets() {
    assert_eq!(pair_block_base(2, 1, 4), 27);
    assert_eq!(query_block_base(0, 3, 4), 9);
    let q = [0u32, 1, 1];
    let o = [2u32, 0, 1];
    let lanes = SignedScatterLanes::new(&q, &o);
    assert_eq!(lanes.query_of, &q);
    assert_eq!(lanes.offset_of, &o);
    let l = SignedScatterLayout::new(2, 3, 4);
    assert_eq!((l.n_queries, l.n_offsets, l.n_blocks), (2, 3, 4));
}

#[test]
fn projection_shape_equality() {
    let a = ProjectAlphaMixShape { dim: 4, rank: 2 };
    assert_eq!(a, ProjectAlphaMixShape { dim: 4, rank: 2 });
    assert_ne!(a, ProjectAlphaMixShape { dim: 4, rank: 3 });
}

#[test]
fn stress_regimes() {
    assert_eq!(GateMode::Entropy.as_str(), "entropy");
    assert_eq!(GateMode::Constant.as_str(), "constant");
    assert_eq!(GateMode::Projection.as_str(), "projection");
    let all = [
        StressKind::Clean,
        StressKind::Noisy,
        StressKind::Missing,
        StressKind::FewShotNoisyMissing,
        StressKind::Shuffled,
        StressKind::ShuffledFewShot,
    ];
    let names: Vec<&str> = all.iter().map(|k| k.as_str()).collect();
    assert_eq!(
        names,
        vec!["clean", "noisy", "missing", "fewshot_noisy_missing", "shuffled", "shuffled_fewshot"]
    );
    let shuffles: Vec<bool> = all.iter().map(|k| k.shuffles()).collect();
    assert_eq!(shuffles, vec![false, false, false, false, true, true]);
    let few: Vec<bool> = all.iter().map(|k| k.is_few_shot()).collect();
    assert_eq!(few, vec![false, false, false, true, false, true]);
    assert_eq!(StressKind::FewShotNoisyMissing.train_samples(100), 32);
    assert_eq!(StressKind::ShuffledFewShot.train_samples(20), 20);
    assert_eq!(StressKind::Clean.train_samples(100), 100);
}

#[test]
fn ablation_schedule() {
    let kinds = stress_kinds();
    assert_eq!(kinds[0], StressKind::Clean);
    assert_eq!(kinds[3], StressKind::FewShotNoisyMissing);
    assert_eq!(kinds[5], StressKind::ShuffledFewShot);
    assert_eq!(
        stress_seeds(53, 1, 2),
        StressSeeds {
            train_data: 2153,
            test_data: 2154,
            train_corrupt: 20055,
            test_corrupt: 30055,
            train_shuffle: 40055,
            test_shuffle: 50055,
            model: 72,
            train_order: 55,
        }
    );
    // The fitted projection learner has 228 parameters.
    assert_eq!(learner_params(GateMode::Projection), 228);
    assert_eq!(learner_params(GateMode::Entropy), 60);
    assert_eq!(learner_params(GateMode::Constant), 60);
}
