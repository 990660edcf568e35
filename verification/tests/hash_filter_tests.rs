//! Tests for the self-contained hash-keyed filter.

use bloom2::compressed_bitmap::{CompressedBitmap, FilterSize};

/// Assert that `bloom` reports exactly `hash` (and index collisions of its
/// own bytes) as present over the full two-byte probe space.
fn matches_only(bloom: &CompressedBitmap, hash: [u8; 2]) {
    for i in 0..255 as u8 {
        for j in 0..255 as u8 {
            let lookup = [i, j];
            if (i == hash[0] || i == hash[1]) && (j == hash[0] || j == hash[1]) {
                continue;
            }
            assert!(
                !bloom.contains_hash(&lookup),
                "expected contains_hash false, got true for key [{}, {}]",
                i,
                j
            );
        }
    }
}

#[test]
fn test_bananas() {
    let mut filter = CompressedBitmap::new(FilterSize::KeyBytes2);
    filter.insert_hash("bananas".as_bytes());
    assert_eq!(filter.contains_hash("bananas".as_bytes()), true);
}

#[test]
fn construct_key_1_64bit() {
    let b = CompressedBitmap::new(FilterSize::KeyBytes1);

    // 1 byte key -> 256 values -> 4 x 64bits -> 0.0625 block-map words,
    // rounded to 1.
    assert_eq!(b.bitmap.block_map.len(), 1);
    assert_eq!(b.bitmap.bitmap.len(), 0);
}

#[test]
fn construct_key_1_32bit() {
    let b = CompressedBitmap::new(FilterSize::KeyBytes1);

    // The smallest configuration still allocates a single block-map word.
    assert_eq!(b.bitmap.block_map.len(), 1);
    assert_eq!(b.bitmap.bitmap.len(), 0);
}

#[test]
fn construct_key_2_64bit() {
    let b = CompressedBitmap::new(FilterSize::KeyBytes2);

    // 2 byte key -> 65,536 values -> 1024 x 64bits -> 16 block-map words.
    assert_eq!(b.bitmap.block_map.len(), 16);
    assert_eq!(b.bitmap.bitmap.len(), 0);
}

#[test]
fn construct_key_3_64bit() {
    let b = CompressedBitmap::new(FilterSize::KeyBytes3);

    // 3 byte key -> 16,777,216 values -> 262,144 x 64bits -> 4,096 words.
    assert_eq!(b.bitmap.block_map.len(), 4096);
    assert_eq!(b.bitmap.bitmap.len(), 0);
}

#[test]
fn contains_inserted_value() {
    let mut b = CompressedBitmap::new(FilterSize::KeyBytes2);
    let hash = [1, 2];

    b.insert_hash(&hash);
    assert!(b.contains_hash(&hash));

    matches_only(&b, hash);

    // Must not contain any empty blocks.
    for block in &b.bitmap.bitmap {
        assert_ne!(*block, 0);
    }
}

#[test]
fn contains_inserted_value_short_key() {
    let mut b = CompressedBitmap::new(FilterSize::KeyBytes2);
    let hash = [42]; // Shorter than the specified key size.

    b.insert_hash(&hash);
    assert!(b.contains_hash(&hash));

    // Must not contain any empty blocks.
    for block in &b.bitmap.bitmap {
        assert_ne!(*block, 0);
    }
}

#[test]
fn min_max_values() {
    for hash in vec![[0, 0], [255, 255]] {
        let mut b = CompressedBitmap::new(FilterSize::KeyBytes2);
        b.insert_hash(&hash);
        assert!(b.contains_hash(&hash));
        matches_only(&b, hash);
    }
}

#[test]
fn clear() {
    let mut b = CompressedBitmap::new(FilterSize::KeyBytes2);
    let hash = [42]; // Shorter than the specified key size.

    b.insert_hash(&hash);
    assert!(b.contains_hash(&hash));

    b.clear();
    assert_eq!(b.contains_hash(&hash), false);

    // Must not contain any blocks.
    for block in &b.bitmap.block_map {
        assert_eq!(*block, 0);
    }

    assert_eq!(b.bitmap.bitmap.len(), 0);
    assert_ne!(b.bitmap.bitmap.capacity(), 0);
}

#[test]
fn scenario_two_fingerprints_one_byte_keys() {
    // Insert two 2-byte fingerprints with a 1-byte key width into an empty
    // filter of capacity 256.
    let mut b = CompressedBitmap::new(FilterSize::KeyBytes1);
    b.insert_hash(&[1, 2]);
    b.insert_hash(&[13, 42]);

    // The inserted fingerprints are found.
    assert!(b.contains_hash(&[1, 2]));
    assert!(b.contains_hash(&[13, 42]));

    // A partial overlap must not match: key 1 is set but key 3 is not.
    assert!(!b.contains_hash(&[1, 3]));

    // A disjoint fingerprint must not match.
    assert!(!b.contains_hash(&[5, 9]));
}

#[test]
fn empty_filter_contains_nothing() {
    let b = CompressedBitmap::new(FilterSize::KeyBytes1);
    for i in 0..=255 as u8 {
        assert!(!b.contains_hash(&[i]));
    }
}
