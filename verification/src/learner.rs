//! Gate modes and stress regimes of the local learner's ablation, the seeds of each
//! ablation cell and the learner's parameter count.
use vstd::prelude::*;

verus! {

/// How the local learner gates its pooled features.
#[derive(Clone, Copy, Debug, Eq, PartialEq, Structural)]
pub enum GateMode {
    Entropy,
    Constant,
    Projection,
}

impl GateMode {
    /// The mode's name.
    pub open spec fn spec_name(self) -> Seq<char> {
        match self {
            GateMode::Entropy => "entropy"@,
            GateMode::Constant => "constant"@,
            GateMode::Projection => "projection"@,
        }
    }

    /// The mode's name: `entropy`, `constant` or `projection`.
    pub fn as_str(self) -> (s: &'static str)
        ensures
            s@ == self.spec_name(),
    {
        match self {
            GateMode::Entropy => "entropy",
            GateMode::Constant => "constant",
            GateMode::Projection => "projection",
        }
    }
}

/// The stress regimes of the ablation.
#[derive(Clone, Copy, Debug, Eq, PartialEq, Structural)]
pub enum StressKind {
    Clean,
    Noisy,
    Missing,
    FewShotNoisyMissing,
    /// Within-sample point-order shuffle (no value corruption), applied to both train
    /// and test: it perturbs only the order-sensitive holonomy channels.
    Shuffled,
    /// The hard few-shot/noisy/missing regime with the point-order shuffle on top.
    ShuffledFewShot,
}

impl StressKind {
    /// The regime's name.
    pub open spec fn spec_name(self) -> Seq<char> {
        match self {
            StressKind::Clean => "clean"@,
            StressKind::Noisy => "noisy"@,
            StressKind::Missing => "missing"@,
            StressKind::FewShotNoisyMissing => "fewshot_noisy_missing"@,
            StressKind::Shuffled => "shuffled"@,
            StressKind::ShuffledFewShot => "shuffled_fewshot"@,
        }
    }

    /// The regime's name.
    pub fn as_str(self) -> (s: &'static str)
        ensures
            s@ == self.spec_name(),
    {
        match self {
            StressKind::Clean => "clean",
            StressKind::Noisy => "noisy",
            StressKind::Missing => "missing",
            StressKind::FewShotNoisyMissing => "fewshot_noisy_missing",
            StressKind::Shuffled => "shuffled",
            StressKind::ShuffledFewShot => "shuffled_fewshot",
        }
    }

    /// Whether this stress applies a within-sample point-order shuffle.
    pub fn shuffles(self) -> (r: bool)
        ensures
            r <==> (self == StressKind::Shuffled || self == StressKind::ShuffledFewShot),
    {
        match self {
            StressKind::Shuffled | StressKind::ShuffledFewShot => true,
            _ => false,
        }
    }

    /// Whether this stress uses the reduced few-shot training budget with value noise and
    /// dropout.
    pub fn is_few_shot(self) -> (r: bool)
        ensures
            r <==> (self == StressKind::FewShotNoisyMissing || self == StressKind::ShuffledFewShot),
    {
        match self {
            StressKind::FewShotNoisyMissing | StressKind::ShuffledFewShot => true,
            _ => false,
        }
    }

    /// Training samples under this stress: at most 32 of `n_train` in the few-shot
    /// regimes, all of them otherwise.
    pub fn train_samples(self, n_train: usize) -> (r: usize)
        ensures
            r == if self == StressKind::FewShotNoisyMissing || self == StressKind::ShuffledFewShot {
                if n_train < 32 {
                    n_train
                } else {
                    32
                }
            } else {
                n_train
            },
    {
        if self.is_few_shot() {
            if n_train < 32 {
                n_train
            } else {
                32
            }
        } else {
            n_train
        }
    }
}

/// The stress regimes in the order the ablation runs them.
pub fn stress_kinds() -> (r: [StressKind; 6])
    ensures
        r@ == seq![
            StressKind::Clean,
            StressKind::Noisy,
            StressKind::Missing,
            StressKind::FewShotNoisyMissing,
            StressKind::Shuffled,
            StressKind::ShuffledFewShot,
        ],
{
    let r = [
        StressKind::Clean,
        StressKind::Noisy,
        StressKind::Missing,
        StressKind::FewShotNoisyMissing,
        StressKind::Shuffled,
        StressKind::ShuffledFewShot,
    ];
    assert(r@ =~= seq![r[0], r[1], r[2], r[3], r[4], r[5]]);
    r
}

/// The seeds of one cell of the ablation (task `t`, stress `s`, base seed `seed`).
#[derive(Clone, Copy, Debug, PartialEq, Eq, Structural)]
pub struct StressSeeds {
    /// Training set generation: `seed + 100 t + 1000 s`.
    pub train_data: u64,
    /// Test set generation: `seed + 100 t + 1000 s + 1`.
    pub test_data: u64,
    /// Training set corruption: `seed + 20000 + s`.
    pub train_corrupt: u64,
    /// Test set corruption: `seed + 30000 + s`.
    pub test_corrupt: u64,
    /// Training set point-order shuffle: `seed + 40000 + s`.
    pub train_shuffle: u64,
    /// Test set point-order shuffle: `seed + 50000 + s`.
    pub test_shuffle: u64,
    /// Model initialisation, shared by the three gate modes: `seed + 17 t + s`.
    pub model: u64,
    /// Minibatch order of training: `seed + s`.
    pub train_order: u64,
}

/// The seeds of the ablation cell for task index `t` and stress index `s` under base
/// seed `seed` (none of the sums may overflow).
pub fn stress_seeds(seed: u64, t: u64, s: u64) -> (r: StressSeeds)
    requires
        seed + 100 * t + 1000 * s + 1 <= u64::MAX,
        seed + 50000 + s <= u64::MAX,
        seed + 17 * t + s <= u64::MAX,
    ensures
        r.train_data == seed + 100 * t + 1000 * s,
        r.test_data == seed + 100 * t + 1000 * s + 1,
        r.train_corrupt == seed + 20000 + s,
        r.test_corrupt == seed + 30000 + s,
        r.train_shuffle == seed + 40000 + s,
        r.test_shuffle == seed + 50000 + s,
        r.model == seed + 17 * t + s,
        r.train_order == seed + s,
{
    let data = seed + t * 100 + s * 1000;
    StressSeeds {
        train_data: data,
        test_data: data + 1,
        train_corrupt: seed + 20000 + s,
        test_corrupt: seed + 30000 + s,
        train_shuffle: seed + 40000 + s,
        test_shuffle: seed + 50000 + s,
        model: seed + t * 17 + s,
        train_order: seed + s,
    }
}

/// Parameters of the local learner under a gate mode: the two-class linear head over
/// the local features (`2 * LOCAL_FEATURES` weights and 2 biases) plus, for the projection
/// gate, the `STRUCTURAL_FEATURES * PROJECTION_RANK` projection basis.
pub fn learner_params(mode: GateMode) -> (r: usize)
    ensures
        r == 2 * crate::LOCAL_FEATURES + 2 + if mode == GateMode::Projection {
            crate::STRUCTURAL_FEATURES * crate::PROJECTION_RANK
        } else {
            0
        },
{
    let head = crate::LOCAL_FEATURES * 2 + 2;
    match mode {
        GateMode::Projection => head + crate::STRUCTURAL_FEATURES * crate::PROJECTION_RANK,
        _ => head,
    }
}

} // verus!
