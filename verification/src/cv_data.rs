//! Byte layouts of the image datasets: MNIST IDX files (big-endian headers) and the
//! little-endian `raw` files, which split the pixel and label payloads off their
//! headers, the choice of files per split, and the per-image draws of the random
//! test-set rotation.
//!
//! IDX: images are `magic:u32, n:u32, rows:u32, cols:u32` then `n*rows*cols` bytes; labels
//! are `magic:u32, n:u32` then `n` bytes. Raw: images are `n:u32, h:u32, w:u32` then
//! `n*h*w` bytes; labels are `n:u32` then `n` bytes.
use vstd::prelude::*;
use crate::curvature_task::lcg_step;

verus! {

/// The big-endian `u32` at offset `o`.
pub open spec fn be_u32(b: Seq<u8>, o: int) -> int {
    b[o] * 16777216 + b[o + 1] * 65536 + b[o + 2] * 256 + b[o + 3]
}

/// The little-endian `u32` at offset `o`.
pub open spec fn le_u32(b: Seq<u8>, o: int) -> int {
    b[o] + b[o + 1] * 256 + b[o + 2] * 65536 + b[o + 3] * 16777216
}

/// Read the big-endian `u32` at offset `o`.
pub fn read_be_u32(b: &[u8], o: usize) -> (r: u32)
    requires
        o + 4 <= b@.len(),
    ensures
        r == be_u32(b@, o as int),
{
    let b0 = b[o] as u32;
    let b1 = b[o + 1] as u32;
    let b2 = b[o + 2] as u32;
    let b3 = b[o + 3] as u32;
    b0 * 16777216 + b1 * 65536 + b2 * 256 + b3
}

/// Read the little-endian `u32` at offset `o`.
pub fn read_le_u32(b: &[u8], o: usize) -> (r: u32)
    requires
        o + 4 <= b@.len(),
    ensures
        r == le_u32(b@, o as int),
{
    let b0 = b[o] as u32;
    let b1 = b[o + 1] as u32;
    let b2 = b[o + 2] as u32;
    let b3 = b[o + 3] as u32;
    b0 + b1 * 256 + b2 * 65536 + b3 * 16777216
}

/// The payloads of one split: `n` square images of side `g`, row-major pixel bytes, and
/// their label bytes.
pub struct SplitBytes {
    /// Pixel bytes, `n * g * g`.
    pub pixels: Vec<u8>,
    /// Label bytes, `n`.
    pub labels: Vec<u8>,
    /// Image side.
    pub g: usize,
}

/// `min(a, b)`.
pub open spec fn min_int(a: int, b: int) -> int {
    if a < b {
        a
    } else {
        b
    }
}

/// Images loaded from an IDX file: the header count, capped.
pub open spec fn idx_count(images: Seq<u8>, cap: int) -> int {
    min_int(be_u32(images, 4), cap)
}

/// Images loaded from a raw file: the header count, capped.
pub open spec fn raw_count(images: Seq<u8>, cap: int) -> int {
    min_int(le_u32(images, 0), cap)
}

/// `s[from..from + len]` as a vector.
fn copy_range(s: &[u8], from: usize, len: usize) -> (r: Vec<u8>)
    requires
        from + len <= s@.len(),
    ensures
        r@ == s@.subrange(from as int, from + len),
{
    let mut r: Vec<u8> = Vec::new();
    let slen = s.len();
    for i in 0..len
        invariant
            slen == s@.len(),
            from + len <= s@.len(),
            r@ == s@.subrange(from as int, from + i),
    {
        r.push(s[from + i]);
        assert(r@ =~= s@.subrange(from as int, from + i + 1));
    }
    r
}

/// Split an MNIST IDX image file and label file into their payloads, keeping the first
/// `min(n, cap)` images. The files must hold the payloads their headers announce.
pub fn idx_split(images: &[u8], labels: &[u8], cap: usize) -> (r: SplitBytes)
    requires
        images@.len() >= 16,
        16 + idx_count(images@, cap as int) * be_u32(images@, 8) * be_u32(images@, 8)
            <= images@.len(),
        8 + idx_count(images@, cap as int) <= labels@.len(),
    ensures
        r.g == be_u32(images@, 8),
        r.pixels@ == images@.subrange(
            16,
            16 + idx_count(images@, cap as int) * be_u32(images@, 8) * be_u32(images@, 8),
        ),
        r.labels@ == labels@.subrange(8, 8 + idx_count(images@, cap as int)),
{
    let count = read_be_u32(images, 4) as usize;
    let n = if count < cap {
        count
    } else {
        cap
    };
    let g = read_be_u32(images, 8) as usize;
    let total = images.len();
    proof {
        assert(n * g * g >= 0) by (nonlinear_arith);
        assert(n * g <= n * g * g || g == 0) by (nonlinear_arith);
        assert(n * g * g <= total);
    }
    let area = if g == 0 {
        0
    } else {
        n * g * g
    };
    assert(area == n * g * g) by (nonlinear_arith)
        requires
            g == 0 ==> area == 0,
            g != 0 ==> area == n * g * g,
    ;
    let pixels = copy_range(images, 16, area);
    let labels_out = copy_range(labels, 8, n);
    SplitBytes { pixels, labels: labels_out, g }
}

/// Split a little-endian raw image file and label file into their payloads, keeping the
/// first `min(n, cap)` images. The images must be square (`h == w`) and the files must
/// hold the payloads their headers announce.
pub fn raw_split(images: &[u8], labels: &[u8], cap: usize) -> (r: SplitBytes)
    requires
        images@.len() >= 12,
        le_u32(images@, 4) == le_u32(images@, 8),
        12 + raw_count(images@, cap as int) * le_u32(images@, 4) * le_u32(images@, 4)
            <= images@.len(),
        4 + raw_count(images@, cap as int) <= labels@.len(),
    ensures
        r.g == le_u32(images@, 4),
        r.pixels@ == images@.subrange(
            12,
            12 + raw_count(images@, cap as int) * le_u32(images@, 4) * le_u32(images@, 4),
        ),
        r.labels@ == labels@.subrange(4, 4 + raw_count(images@, cap as int)),
{
    let count = read_le_u32(images, 0) as usize;
    let n = if count < cap {
        count
    } else {
        cap
    };
    let g = read_le_u32(images, 4) as usize;
    let total = images.len();
    proof {
        assert(n * g * g >= 0) by (nonlinear_arith);
        assert(n * g <= n * g * g || g == 0) by (nonlinear_arith);
        assert(n * g * g <= total);
    }
    let area = if g == 0 {
        0
    } else {
        n * g * g
    };
    assert(area == n * g * g) by (nonlinear_arith)
        requires
            g == 0 ==> area == 0,
            g != 0 ==> area == n * g * g,
    ;
    let pixels = copy_range(images, 12, area);
    let labels_out = copy_range(labels, 4, n);
    SplitBytes { pixels, labels: labels_out, g }
}

/// How a split is stored.
#[derive(Clone, Copy, Debug, PartialEq, Eq, Structural)]
pub enum SplitFormat {
    /// MNIST IDX, big-endian headers.
    Idx,
    /// Little-endian raw.
    Raw,
}

/// The files of a split: the format and the image and label file names.
pub open spec fn spec_split_files(mnist: bool, train: bool) -> (SplitFormat, Seq<char>, Seq<char>) {
    if mnist {
        if train {
            (SplitFormat::Idx, "train-images-idx3-ubyte"@, "train-labels-idx1-ubyte"@)
        } else {
            (SplitFormat::Idx, "t10k-images-idx3-ubyte"@, "t10k-labels-idx1-ubyte"@)
        }
    } else {
        if train {
            (SplitFormat::Raw, "train-images.bin"@, "train-labels.bin"@)
        } else {
            (SplitFormat::Raw, "test-images.bin"@, "test-labels.bin"@)
        }
    }
}

/// The files of the `train` or test split of `dataset`: the MNIST IDX files for
/// `mnist`, the raw files for every other dataset.
pub fn split_files(dataset: &str, train: bool) -> (r: (SplitFormat, &'static str, &'static str))
    ensures
        r.0 == spec_split_files(dataset@ == "mnist"@, train).0,
        r.1@ == spec_split_files(dataset@ == "mnist"@, train).1,
        r.2@ == spec_split_files(dataset@ == "mnist"@, train).2,
{
    let mnist = dataset.to_owned() == "mnist".to_owned();
    if mnist {
        if train {
            (SplitFormat::Idx, "train-images-idx3-ubyte", "train-labels-idx1-ubyte")
        } else {
            (SplitFormat::Idx, "t10k-images-idx3-ubyte", "t10k-labels-idx1-ubyte")
        }
    } else {
        if train {
            (SplitFormat::Raw, "train-images.bin", "train-labels.bin")
        } else {
            (SplitFormat::Raw, "test-images.bin", "test-labels.bin")
        }
    }
}

/// Seed of the test-set rotation generator.
pub const ROTATION_SEED: u64 = 0x2545_f491_4f6c_dd1d;

/// The generator state after `k` steps from `seed`.
pub open spec fn lcg_iter(seed: u64, k: nat) -> u64
    decreases k,
{
    if k == 0 {
        seed
    } else {
        lcg_step(lcg_iter(seed, (k - 1) as nat))
    }
}

/// The 24-bit rotation draws of `n` images: image `s` takes the top 24 bits of the state
/// after `s + 1` steps from [`ROTATION_SEED`]; its angle is `draw / 2^24` of a full turn.
pub fn rotation_draws(n: usize) -> (r: Vec<u32>)
    ensures
        r@.len() == n,
        forall|s: int| 0 <= s < n ==> #[trigger] r@[s] == lcg_iter(ROTATION_SEED, (s + 1) as nat) >> 40u64,
{
    let mut st: u64 = ROTATION_SEED;
    let mut r: Vec<u32> = Vec::new();
    for s in 0..n
        invariant
            r@.len() == s,
            st == lcg_iter(ROTATION_SEED, s as nat),
            forall|t: int| 0 <= t < s ==> #[trigger] r@[t] == lcg_iter(ROTATION_SEED, (t + 1) as nat) >> 40u64,
    {
        st = st.wrapping_mul(crate::curvature_task::LCG_MUL).wrapping_add(crate::curvature_task::LCG_INC);
        let hi = st >> 40u64;
        assert(hi <= u32::MAX) by (bit_vector)
            requires
                hi == st >> 40u64,
        ;
        r.push(hi as u32);
    }
    r
}

} // verus!
