use nagare::cv_data::{
    idx_split, raw_split, read_be_u32, read_le_u32, rotation_draws, split_files, SplitFormat,
};

fn be(v: u32) -> [u8; 4] {
    v.to_be_bytes()
}

fn le(v: u32) -> [u8; 4] {
    v.to_le_bytes()
}

#[test]
fn header_words() {
    let b = [0x00u8, 0x00, 0x08, 0x03, 0x12, 0x34, 0x56, 0x78];
    assert_eq!(read_be_u32(&b, 0), 2051);
    assert_eq!(read_be_u32(&b, 4), 0x1234_5678);
    assert_eq!(read_le_u32(&b, 4), 0x7856_3412);
    assert_eq!(read_le_u32(&b, 0), 0x0308_0000);
}

#[test]
fn idx_split_takes_the_announced_payload() {
    // 3 images of 2x2 announced, capped at 2.
    let mut images = Vec::new();
    images.extend_from_slice(&be(2051));
    images.extend_from_slice(&be(3));
    images.extend_from_slice(&be(2));
    images.extend_from_slice(&be(2));
    images.extend((0u8..12).map(|p| p * 10));
    let mut labels = Vec::new();
    labels.extend_from_slice(&be(2049));
    labels.extend_from_slice(&be(3));
    labels.extend_from_slice(&[7, 1, 4]);
    let s = idx_split(&images, &labels, 2);
    assert_eq!(s.g, 2);
    assert_eq!(s.pixels, vec![0, 10, 20, 30, 40, 50, 60, 70]);
    assert_eq!(s.labels, vec![7, 1]);
    let all = idx_split(&images, &labels, 100);
    assert_eq!(all.pixels.len(), 12);
    assert_eq!(all.labels, vec![7, 1, 4]);
}

#[test]
fn raw_split_takes_the_announced_payload() {
    let mut images = Vec::new();
    images.extend_from_slice(&le(2));
    images.extend_from_slice(&le(3));
    images.extend_from_slice(&le(3));
    images.extend(1u8..=18);
    let mut labels = Vec::new();
    labels.extend_from_slice(&le(2));
    labels.extend_from_slice(&[5, 9]);
    let s = raw_split(&images, &labels, 10);
    assert_eq!(s.g, 3);
    assert_eq!(s.pixels, (1u8..=18).collect::<Vec<_>>());
    assert_eq!(s.labels, vec![5, 9]);
    let one = raw_split(&images, &labels, 1);
    assert_eq!(one.pixels, (1u8..=9).collect::<Vec<_>>());
    assert_eq!(one.labels, vec![5]);
}

#[test]
fn split_files_by_dataset() {
    assert_eq!(
        split_files("mnist", true),
        (SplitFormat::Idx, "train-images-idx3-ubyte", "train-labels-idx1-ubyte")
    );
    assert_eq!(
        split_files("mnist", false),
        (SplitFormat::Idx, "t10k-images-idx3-ubyte", "t10k-labels-idx1-ubyte")
    );
    assert_eq!(
        split_files("fashion", true),
        (SplitFormat::Raw, "train-images.bin", "train-labels.bin")
    );
    assert_eq!(
        split_files("", false),
        (SplitFormat::Raw, "test-images.bin", "test-labels.bin")
    );
}

#[test]
fn rotation_draws_follow_the_generator() {
    assert_eq!(rotation_draws(3), vec![7920797, 3630504, 14780527]);
    assert!(rotation_draws(0).is_empty());
    assert!(rotation_draws(50).iter().all(|&d| d < (1 << 24)));
}
