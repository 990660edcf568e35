//! Tests for the bitmap backings: the sparse two-level bitmap, the dense
//! vector-backed bitmap, and the byte-buffer-backed bitmap.

use bloom2::{Bitmap, BytesBitmap, CompressedBitmap, VecBitmap};

#[test]
fn test_set_contains() {
    let mut b = CompressedBitmap::new(100);
    b.set(100, true);
    b.set(0, true);
    b.set(42, true);

    let truthy = vec![100, 0, 42];
    for i in 0..100 {
        assert!(
            Bitmap::get(&b, i) == truthy.contains(&i),
            "unexpected value {}",
            i
        );
    }

    assert!(b.get(100));
    assert!(b.get(0));
    assert!(b.get(42));
}

#[test]
fn test_clear() {
    let mut b = CompressedBitmap::new(100);
    b.set(100, true);
    b.set(0, true);
    b.set(42, true);

    let truthy = vec![100, 0, 42];
    for i in 0..100 {
        assert!(
            Bitmap::get(&b, i) == truthy.contains(&i),
            "unexpected value {}",
            i
        );
    }

    b.clear();
    for i in 0..100 {
        assert!(Bitmap::get(&b, i) == false, "unexpected value {}", i);
    }
}

#[test]
fn test_set_true_false() {
    let mut b = CompressedBitmap::new(100);
    b.set(42, true);
    assert!(b.get(42));
    b.set(42, false);
    assert!(!b.get(42));
}

#[test]
fn test_block_map_iter() {
    let mut bitmap = CompressedBitmap::new(i16::MAX as _);
    bitmap.set(1, true); // Block 0
    bitmap.set(usize::BITS as usize * 4, true); // Block 4
    bitmap.set(usize::BITS as usize * 64, true); // Block 64
    bitmap.set(usize::BITS as usize * 65, true); // Block 65
    bitmap.set(usize::BITS as usize * 128, true); // Block 128

    // The 0th block is non-empty and at physical index 0.
    assert_eq!(bitmap.block_offset(0), Some(0));
    // The 1st, 2nd and 3rd blocks are all zero and elided.
    assert_eq!(bitmap.block_offset(1), None);
    assert_eq!(bitmap.block_offset(2), None);
    assert_eq!(bitmap.block_offset(3), None);
    // The 4th block is non-empty and at physical index 1.
    assert_eq!(bitmap.block_offset(4), Some(1));
    // Then the next non-empty blocks and their physical indexes.
    assert_eq!(bitmap.block_offset(64), Some(2));
    assert_eq!(bitmap.block_offset(65), Some(3));
    // Finally the last bit!
    assert_eq!(bitmap.block_offset(128), Some(4));
    // Every other block in between is elided.
    for b in 5..64 {
        assert_eq!(bitmap.block_offset(b), None);
    }
}

#[test]
fn get_after_set_matches_reference_model() {
    // A fixed sequence of (key, value) operations, applied to all three
    // bitmap variants and to a plain boolean array as the reference.
    let ops: Vec<(usize, bool)> = vec![
        (0, true),
        (63, true),
        (64, true),
        (64, false),
        (63, true),
        (200, true),
        (0, false),
        (199, true),
        (200, false),
        (1027, true),
    ];
    let max_key = 1027;

    let mut model = vec![false; max_key + 1];
    let mut compressed = CompressedBitmap::new(max_key);
    let mut dense = VecBitmap::new_with_capacity(max_key);
    let mut byte_backed = BytesBitmap::new_with_capacity(max_key);

    for (key, value) in ops {
        model[key] = value;
        compressed.set(key, value);
        Bitmap::set(&mut dense, key, value);
        Bitmap::set(&mut byte_backed, key, value);
    }

    for key in 0..=max_key {
        assert_eq!(compressed.get(key), model[key], "compressed at {}", key);
        assert_eq!(Bitmap::get(&dense, key), model[key], "dense at {}", key);
        assert_eq!(
            Bitmap::get(&byte_backed, key),
            model[key],
            "byte-backed at {}",
            key
        );
    }
}

#[test]
fn compression_preserves_every_bit() {
    let max_key = 1028;
    let keys = vec![0, 5, 63, 64, 127, 128, 500, 1000, 1027];

    let mut dense = VecBitmap::new_with_capacity(max_key);
    for k in &keys {
        Bitmap::set(&mut dense, *k, true);
    }

    let compressed = CompressedBitmap::from(dense.clone());

    for i in 0..max_key {
        assert_eq!(compressed.get(i), Bitmap::get(&dense, i), "at {}", i);
    }

    // The structural invariant: one stored word per set block-map bit.
    let ones: u32 = compressed.block_map.iter().map(|w| w.count_ones()).sum();
    assert_eq!(ones as usize, compressed.bitmap.len());
}

#[test]
fn union_matches_pointwise_or() {
    let max_key = 2000;
    let a_keys = vec![1, 64, 300, 1999];
    let b_keys = vec![64, 65, 1024, 1999];

    let mut a = CompressedBitmap::new(max_key);
    for k in &a_keys {
        a.set(*k, true);
    }
    let mut b = CompressedBitmap::new(max_key);
    for k in &b_keys {
        b.set(*k, true);
    }

    let merged = a.or(&b);

    for i in 0..=max_key {
        assert_eq!(
            merged.get(i),
            a.get(i) || b.get(i),
            "unexpected value {}",
            i
        );
    }

    // The set bits of the merged block map equal the merged word count.
    let ones: u32 = merged.block_map.iter().map(|w| w.count_ones()).sum();
    assert_eq!(ones as usize, merged.bitmap.len());
}

#[test]
fn union_with_empty_is_identity() {
    let max_key = 100;
    let mut a = CompressedBitmap::new(max_key);
    for k in 0..50 {
        a.set(k, true);
    }
    let empty = CompressedBitmap::new(max_key);

    let merged = a.or(&empty);

    // Byte-for-byte equality with the populated input alone.
    assert_eq!(merged.block_map, a.block_map);
    assert_eq!(merged.bitmap, a.bitmap);
    assert_eq!(merged, a);
}

#[test]
fn scenario_sparse_capacity_100() {
    // A compressed bitmap of capacity 100: set keys {0, 42, 100} true, then
    // set 42 false again.
    let mut b = CompressedBitmap::new(100);
    b.set(0, true);
    b.set(42, true);
    b.set(100, true);
    b.set(42, false);

    assert_eq!(b.get(0), true);
    assert_eq!(b.get(42), false);
    assert_eq!(b.get(100), true);

    // 0 and 42 share word 0; 100 lives in word 1: exactly two allocated
    // blocks (clearing 42 does not retract its block's slot).
    assert_eq!(b.bitmap.len(), 2);

    // The dense equivalent agrees on every key in range.
    let mut dense = VecBitmap::new_with_capacity(100);
    Bitmap::set(&mut dense, 0, true);
    Bitmap::set(&mut dense, 42, true);
    Bitmap::set(&mut dense, 100, true);
    Bitmap::set(&mut dense, 42, false);
    for i in 0..=100 {
        assert_eq!(b.get(i), Bitmap::get(&dense, i), "at {}", i);
    }
}

#[test]
fn parts_round_trip_reproduces_bitmap() {
    let mut b = CompressedBitmap::new(300);
    b.set(3, true);
    b.set(70, true);
    b.set(300, true);

    let rebuilt =
        CompressedBitmap::from_parts(b.block_map.clone(), b.bitmap.clone(), b.max_key)
            .expect("parts of a well-formed bitmap must validate");

    assert_eq!(rebuilt, b);
    for i in 0..=300 {
        assert_eq!(rebuilt.get(i), b.get(i), "at {}", i);
    }
}

#[test]
fn parts_validation_rejects_mismatches() {
    // A block map with one set bit but an empty word array cannot go
    // together.
    let block_map = vec![1u64];
    let bitmap: Vec<u64> = Vec::new();
    assert!(CompressedBitmap::from_parts(block_map, bitmap, 100).is_none());

    // A block map of the wrong length for the declared maximum key is
    // rejected too.
    let block_map = vec![0u64, 0u64];
    let bitmap: Vec<u64> = Vec::new();
    assert!(CompressedBitmap::from_parts(block_map, bitmap, 100).is_none());
}

#[test]
fn frozen_bytes_round_trip() {
    let mut b = BytesBitmap::new_with_capacity(1000);
    let keys = vec![0, 7, 8, 500, 999];
    for k in &keys {
        Bitmap::set(&mut b, *k, true);
    }
    let max_key = b.max_key();

    let frozen = b.clone().freeze();
    let rebuilt = BytesBitmap::from_bytes(frozen);

    // The rebuilt maximum key covers at least the source bitmap's range, and
    // every get in that range answers as before.
    assert!(rebuilt.max_key() >= max_key);
    for i in 0..=max_key {
        assert_eq!(Bitmap::get(&rebuilt, i), Bitmap::get(&b, i), "at {}", i);
    }
}

#[test]
fn byte_sizes_reflect_backing_storage() {
    let dense = VecBitmap::new_with_capacity(1027);
    // ceil(1027 / 64) = 17 words of 8 bytes.
    assert_eq!(Bitmap::byte_size(&dense), 136);

    let byte_backed = BytesBitmap::new_with_capacity(1027);
    assert_eq!(Bitmap::byte_size(&byte_backed), 136);
}

#[test]
fn shrink_preserves_contents() {
    let mut b = CompressedBitmap::new(5000);
    let keys = vec![0, 64, 65, 700, 4999];
    for k in &keys {
        b.set(*k, true);
    }
    let before = b.clone();

    b.shrink_to_fit();

    assert_eq!(b, before);
    for i in 0..=5000 {
        assert_eq!(b.get(i), keys.contains(&i), "at {}", i);
    }
}
