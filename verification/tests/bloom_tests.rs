//! Tests for the bloom filter layer.

use std::cell::RefCell;
use std::hash::{BuildHasher, BuildHasherDefault, Hasher};
use std::rc::Rc;

use bloom2::{Bitmap, Bloom2, BloomFilterBuilder, CompressedBitmap, FilterSize};

/// A hasher returning a fixed, caller-controlled digest.
#[derive(Debug, Clone, Default)]
struct MockHasher {
    return_hash: u64,
}

impl Hasher for MockHasher {
    fn write(&mut self, _bytes: &[u8]) {}
    fn finish(&self) -> u64 {
        self.return_hash
    }
}

impl BuildHasher for MockHasher {
    type Hasher = Self;
    fn build_hasher(&self) -> MockHasher {
        self.clone()
    }
}

/// A bit storage recording every call it receives, through handles the test
/// keeps after the filter takes ownership.
#[derive(Debug, Default, Clone)]
struct MockBitmap {
    set_calls: Rc<RefCell<Vec<(usize, bool)>>>,
    get_calls: Rc<RefCell<Vec<usize>>>,
}

impl Bitmap for MockBitmap {
    fn new_with_capacity(_max_key: usize) -> Self {
        MockBitmap::default()
    }
    fn set(&mut self, key: usize, value: bool) {
        self.set_calls.borrow_mut().push((key, value));
    }
    fn get(&self, key: usize) -> bool {
        self.get_calls.borrow_mut().push(key);
        false
    }
    fn byte_size(&self) -> usize {
        42
    }
    fn or(&self, _other: &Self) -> Self {
        unreachable!()
    }
}

fn new_test_bloom<T: std::hash::Hash>(key_size: FilterSize) -> Bloom2<MockHasher, MockBitmap, T> {
    BloomFilterBuilder::hasher(MockHasher::default())
        .bitmap(MockBitmap::default(), key_size)
        .build()
}

#[test]
fn test_default() {
    let mut b = Bloom2::default();
    assert_eq!(b.key_size, FilterSize::KeyBytes2);

    b.insert(&42);
    assert!(b.contains(&42));
}

#[test]
fn test_insert_contains_kb1() {
    let mut b = new_test_bloom(FilterSize::KeyBytes1);
    b.hasher.return_hash = 12345678901234567890;
    let set_calls = b.bitmap.set_calls.clone();
    let get_calls = b.bitmap.get_calls.clone();

    b.insert(&[1, 2, 3, 4]);
    assert_eq!(
        *set_calls.borrow(),
        vec![
            (171, true),
            (84, true),
            (169, true),
            (140, true),
            (235, true),
            (31, true),
            (10, true),
            (210, true),
        ]
    );

    b.contains(&[1, 2, 3, 4]);
    assert_eq!(*get_calls.borrow(), vec![171, 84, 169, 140, 235, 31, 10, 210]);
}

#[test]
fn test_insert_contains_kb2() {
    let mut b = new_test_bloom(FilterSize::KeyBytes1);
    b.key_size = FilterSize::KeyBytes2;
    b.hasher.return_hash = 12345678901234567890;
    let set_calls = b.bitmap.set_calls.clone();
    let get_calls = b.bitmap.get_calls.clone();

    b.insert(&[1, 2, 3, 4]);

    assert_eq!(
        *set_calls.borrow(),
        vec![(43860, true), (43404, true), (60191, true), (2770, true)]
    );
    assert!(get_calls.borrow().is_empty());
}

#[test]
fn test_issue_3() {
    let mut bloom_filter: Bloom2<_, CompressedBitmap, &str> = BloomFilterBuilder::default()
        .size(FilterSize::KeyBytes4)
        .build();

    bloom_filter.insert(&"a");
    bloom_filter.insert(&"b");
    bloom_filter.insert(&"c");
    bloom_filter.insert(&"d");
}

#[test]
fn test_size_shrink() {
    let mut bloom_filter: Bloom2<_, CompressedBitmap, _> = BloomFilterBuilder::default()
        .size(FilterSize::KeyBytes4)
        .build();

    for i in 0..10 {
        bloom_filter.insert(&i);
    }

    assert_eq!(bloom_filter.byte_size(), 8388920);
    bloom_filter.shrink_to_fit();
    assert_eq!(bloom_filter.byte_size(), 8388824);
}

#[test]
fn set_hasher() {
    let mut bloom_filter: Bloom2<BuildHasherDefault<twox_hash::XxHash64>, CompressedBitmap, i32> =
        BloomFilterBuilder::hasher(BuildHasherDefault::<twox_hash::XxHash64>::default())
            .size(FilterSize::KeyBytes4)
            .build();

    for i in 0..10 {
        bloom_filter.insert(&i);
    }

    for i in 0..10 {
        assert!(bloom_filter.contains(&i), "did not contain {}", i);
    }
}

#[test]
fn inserted_values_stay_after_more_inserts_and_union() {
    // A deterministic hasher so that lookups probe the same keys as the
    // inserts did.
    type StableBuildHasher = BuildHasherDefault<twox_hash::XxHash64>;

    let mut a: Bloom2<StableBuildHasher, CompressedBitmap, usize> =
        BloomFilterBuilder::hasher(StableBuildHasher::default()).build();
    let mut b: Bloom2<StableBuildHasher, CompressedBitmap, usize> =
        BloomFilterBuilder::hasher(StableBuildHasher::default()).build();

    for v in 0..20 {
        a.insert(&v);
        assert!(a.contains(&v), "not found immediately after insert: {}", v);
    }
    for v in 100..120 {
        b.insert(&v);
    }

    // Never downgraded by further inserts.
    for v in 0..20 {
        assert!(a.contains(&v), "lost after later inserts: {}", v);
    }

    // Never downgraded by a union, and the union answers true for every
    // value either side answered true for.
    a.union(&b);
    for v in 0..20 {
        assert!(a.contains(&v), "lost after union: {}", v);
    }
    for v in 100..120 {
        assert!(a.contains(&v), "union missed the other side: {}", v);
    }
}

#[test]
fn union_with_empty_filter_is_identity() {
    // A filter containing 0..50, and an empty filter of the same
    // configuration.
    type StableBuildHasher = BuildHasherDefault<twox_hash::XxHash64>;

    let mut a: Bloom2<StableBuildHasher, CompressedBitmap, usize> =
        BloomFilterBuilder::hasher(StableBuildHasher::default()).build();
    for x in 0..50 {
        a.insert(&x);
    }
    let b: Bloom2<StableBuildHasher, CompressedBitmap, usize> =
        BloomFilterBuilder::hasher(StableBuildHasher::default()).build();

    let before = a.bitmap.clone();
    a.union(&b);

    // Byte-for-byte identical to the populated filter alone.
    assert_eq!(a.bitmap, before);
    for x in 0..50 {
        assert!(a.contains(&x));
    }
}

#[test]
fn fingerprint_chunking_covers_whole_hash() {
    // With a 3-byte key width an 8-byte fingerprint splits into keys of 3,
    // 3 and 2 bytes. Recording a fingerprint sets exactly those keys.
    let mut b: Bloom2<MockHasher, MockBitmap, u64> = new_test_bloom(FilterSize::KeyBytes1);
    b.key_size = FilterSize::KeyBytes3;
    let set_calls = b.bitmap.set_calls.clone();

    b.insert_fingerprint(0x0102030405060708);
    assert_eq!(
        *set_calls.borrow(),
        vec![(0x010203, true), (0x040506, true), (0x0708, true)]
    );
}

#[test]
fn contains_fingerprint_requires_every_key() {
    type StableBuildHasher = BuildHasherDefault<twox_hash::XxHash64>;
    let mut b: Bloom2<StableBuildHasher, CompressedBitmap, usize> =
        BloomFilterBuilder::hasher(StableBuildHasher::default()).build();

    // 0x00010002 splits (at the 2-byte width) into keys 0, 1, 0, 2.
    b.insert_fingerprint(0x0000000100000002);
    assert!(b.contains_fingerprint(0x0000000100000002));

    // A fingerprint sharing only some keys is not reported present.
    assert!(!b.contains_fingerprint(0x0000000100000003));
    assert!(!b.contains_fingerprint(0x0003000100000002));
}

#[test]
fn cloned_filter_is_independent() {
    type StableBuildHasher = BuildHasherDefault<twox_hash::XxHash64>;

    let mut a: Bloom2<StableBuildHasher, CompressedBitmap, usize> =
        BloomFilterBuilder::hasher(StableBuildHasher::default()).build();
    for v in 0..10 {
        a.insert(&v);
    }

    let mut copy = a.clone();
    assert_eq!(a, copy);

    // Mutating the copy leaves the source untouched: no shared backing.
    copy.insert(&1000);
    assert_eq!(a.key_size, copy.key_size);
    for v in 0..10 {
        assert!(a.contains(&v));
        assert!(copy.contains(&v));
    }
    assert!(copy.contains(&1000));
}
