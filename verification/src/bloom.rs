//! The bloom filter layer: a capability trait for bit storage, a builder,
//! and the [`Bloom2`] filter itself.

use vstd::prelude::*;

use crate::bitmap::spec_num_blocks;
use crate::bitmap::CompressedBitmap;
use crate::filter_size::FilterSize;
use std::collections::hash_map::RandomState;
use std::hash::BuildHasher;
use std::hash::Hash;
use std::marker::PhantomData;
use vstd::slice::slice_subrange;

verus! {

/// Big-endian byte `j` (0 = most significant) of a 64-bit fingerprint.
pub open spec fn spec_be_byte(h: u64, j: int) -> u8 {
    ((h >> ((56 - 8 * j) as u64)) & 0xffu64) as u8
}

/// How many keys a 8-byte fingerprint splits into at key width `w`:
/// `8 / w`, rounded up (the final key may be shorter than `w` bytes).
pub open spec fn spec_num_keys(w: int) -> int {
    if 8int % w == 0 {
        8int / w
    } else {
        8int / w + 1
    }
}

/// The byte length of the `i`-th key chunk at key width `w`: `w` for every
/// chunk but possibly the last, which takes the remaining bytes.
pub open spec fn spec_chunk_len(w: int, i: int) -> int {
    if (i + 1) * w <= 8 {
        w
    } else {
        8 - i * w
    }
}

/// A byte sequence read as a big-endian unsigned integer.
pub open spec fn spec_key_of_bytes(s: Seq<u8>) -> int
    decreases s.len(),
{
    if s.len() == 0 {
        0
    } else {
        256 * spec_key_of_bytes(s.drop_last()) + s.last()
    }
}

/// `256^n`.
pub open spec fn spec_pow256(n: int) -> int
    decreases n,
{
    if n <= 0 {
        1
    } else {
        256 * spec_pow256(n - 1)
    }
}

/// The `i`-th key split from fingerprint `h` at key width `w`: the bytes
/// `[i * w, i * w + len)` of `h`'s big-endian representation, read as a
/// big-endian unsigned integer.
pub open spec fn spec_chunk_key(h: u64, w: int, i: int) -> int {
    spec_key_of_bytes(Seq::new(spec_chunk_len(w, i) as nat, |j: int| spec_be_byte(h, i * w + j)))
}

/// Whether `k` is one of the keys split from fingerprint `h` at width `w`.
pub open spec fn spec_is_chunk_key(h: u64, w: int, k: int) -> bool {
    exists|i: int| 0 <= i < spec_num_keys(w) && k == spec_chunk_key(h, w, i)
}

/// A big-endian byte value is bounded by `256` to the power of its length.
pub proof fn lemma_key_of_bytes_bound(s: Seq<u8>)
    ensures
        0 <= spec_key_of_bytes(s) < spec_pow256(s.len() as int),
    decreases s.len(),
{
    if s.len() > 0 {
        lemma_key_of_bytes_bound(s.drop_last());
    }
}

/// `256^n` is positive.
pub proof fn lemma_pow256_pos(n: int)
    ensures
        spec_pow256(n) >= 1,
    decreases n,
{
    if n > 0 {
        lemma_pow256_pos(n - 1);
    }
}

/// `256^n` never shrinks as `n` grows.
pub proof fn lemma_pow256_monotone(a: int, b: int)
    requires
        a <= b,
    ensures
        spec_pow256(a) <= spec_pow256(b),
    decreases b - a,
{
    if a < b {
        lemma_pow256_monotone(a, b - 1);
        lemma_pow256_pos(b - 1);
    }
}

/// A prefix of a byte string never reads as a larger integer than the whole.
pub proof fn lemma_key_of_bytes_prefix_le(s: Seq<u8>, i: int)
    requires
        0 <= i <= s.len(),
    ensures
        spec_key_of_bytes(s.subrange(0, i)) <= spec_key_of_bytes(s),
    decreases s.len() - i,
{
    if i < s.len() {
        let t = s.subrange(0, i + 1);
        assert(t.drop_last() =~= s.subrange(0, i));
        lemma_key_of_bytes_bound(s.subrange(0, i));
        lemma_key_of_bytes_prefix_le(s, i + 1);
    } else {
        assert(s.subrange(0, i) =~= s);
    }
}

/// Every key split from a fingerprint at width `w` lies below `256^w`.
pub proof fn lemma_chunk_key_bound(h: u64, w: int, i: int)
    requires
        1 <= w,
        0 <= i,
        i * w < 8,
    ensures
        0 <= spec_chunk_key(h, w, i) < spec_pow256(w),
{
    let s = Seq::new(spec_chunk_len(w, i) as nat, |j: int| spec_be_byte(h, i * w + j));
    lemma_key_of_bytes_bound(s);
    assert((i + 1) * w == i * w + w) by (nonlinear_arith);
    lemma_pow256_monotone(s.len() as int, w);
}

/// The big-endian bytes of a 64-bit fingerprint.
fn be_bytes(h: u64) -> (r: Vec<u8>)
    ensures
        r@.len() == 8,
        forall|j: int| 0 <= j < 8 ==> r@[j] == spec_be_byte(h, j),
{
    let mut r: Vec<u8> = Vec::new();
    let mut j: usize = 0;
    while j < 8
        invariant
            j <= 8,
            r@.len() == j,
            forall|x: int| 0 <= x < j ==> r@[x] == spec_be_byte(h, x),
        decreases 8 - j,
    {
        let shift: u64 = (56 - 8 * j) as u64;
        r.push(((h >> shift) & 0xffu64) as u8);
        j = j + 1;
    }
    r
}

/// A byte slice read as a big-endian unsigned integer.
pub(crate) fn bytes_to_usize_key(bytes: &[u8]) -> (r: usize)
    requires
        spec_key_of_bytes(bytes@) <= usize::MAX,
    ensures
        r == spec_key_of_bytes(bytes@),
{
    let n = bytes.len();
    let mut key: usize = 0;
    let mut i: usize = 0;
    while i < n
        invariant
            i <= n,
            n == bytes@.len(),
            spec_key_of_bytes(bytes@) <= usize::MAX,
            key == spec_key_of_bytes(bytes@.subrange(0, i as int)),
        decreases n - i,
    {
        proof {
            assert(bytes@.subrange(0, i as int + 1).drop_last() =~= bytes@.subrange(0, i as int));
            lemma_key_of_bytes_bound(bytes@.subrange(0, i as int));
            lemma_key_of_bytes_prefix_le(bytes@, i as int + 1);
        }
        key = key * 256 + (bytes[i] as usize);
        i = i + 1;
    }
    proof {
        assert(bytes@.subrange(0, n as int) =~= bytes@);
    }
    key
}

/// Split fingerprint `h` into its keys at the width `size` configures, in
/// chunk order. Every returned key lies inside `size`'s key space.
fn fingerprint_keys(h: u64, size: FilterSize) -> (r: Vec<usize>)
    requires
        size.spec_key_space() <= usize::MAX as int + 1,
    ensures
        r@.len() == spec_num_keys(size.spec_key_bytes()),
        forall|i: int|
            0 <= i < r@.len() ==> r@[i] == spec_chunk_key(h, size.spec_key_bytes(), i),
        forall|i: int| 0 <= i < r@.len() ==> r@[i] < size.spec_key_space(),
{
    let bytes = be_bytes(h);
    let w = size.key_bytes();
    let ghost wi = size.spec_key_bytes();
    proof {
        reveal_with_fuel(spec_pow256, 6);
        assert(spec_pow256(wi) == size.spec_key_space());
    }
    let mut r: Vec<usize> = Vec::new();
    let mut start: usize = 0;
    while start < 8
        invariant
            start <= 8,
            1 <= w <= 5,
            w == wi,
            wi == size.spec_key_bytes(),
            spec_pow256(wi) == size.spec_key_space(),
            size.spec_key_space() <= usize::MAX as int + 1,
            bytes@.len() == 8,
            forall|j: int| 0 <= j < 8 ==> bytes@[j] == spec_be_byte(h, j),
            start == if w * r@.len() <= 8 {
                w * r@.len() as int
            } else {
                8int
            },
            r@.len() <= spec_num_keys(wi),
            start < 8 ==> r@.len() < spec_num_keys(wi),
            forall|i: int| 0 <= i < r@.len() ==> r@[i] == spec_chunk_key(h, wi, i),
            forall|i: int| 0 <= i < r@.len() ==> r@[i] < size.spec_key_space(),
        decreases 8 - start,
    {
        let end = if start + w <= 8 {
            start + w
        } else {
            8
        };
        let ghost i = r@.len() as int;
        let ghost chunk = Seq::new(
            spec_chunk_len(wi, i) as nat,
            |j: int| spec_be_byte(h, i * wi + j),
        );
        proof {
            assert(i * wi == wi * i) by (nonlinear_arith);
            assert(start == i * wi);
            assert((i + 1) * wi == i * wi + wi) by (nonlinear_arith);
            assert(end - start == spec_chunk_len(wi, i));
            assert(bytes@.subrange(start as int, end as int) =~= chunk);
            lemma_chunk_key_bound(h, wi, i);
        }
        let chunk_key = bytes_to_usize_key(slice_subrange(bytes.as_slice(), start, end));
        r.push(chunk_key);
        proof {
            assert(wi * (i + 1) == wi * i + wi) by (nonlinear_arith);
            assert(i * wi == wi * i) by (nonlinear_arith);
            if end < 8 {
                assert(r@.len() < spec_num_keys(wi)) by (nonlinear_arith)
                    requires
                        r@.len() == i + 1,
                        wi * i + wi < 8,
                        start == wi * i,
                        0 <= i,
                        1 <= wi,
                        spec_num_keys(wi) == if 8int % wi == 0 {
                            8int / wi
                        } else {
                            8int / wi + 1
                        },
                ;
            }
        }
        start = end;
    }
    proof {
        assert(r@.len() == spec_num_keys(wi)) by (nonlinear_arith)
            requires
                wi * r@.len() >= 8,
                r@.len() <= spec_num_keys(wi),
                1 <= wi <= 5,
                spec_num_keys(wi) == if 8int % wi == 0 {
                    8int / wi
                } else {
                    8int / wi + 1
                },
        ;
    }
    r
}

/// A trait to abstract bit storage for use in a [`Bloom2`](crate::Bloom2)
/// filter.
///
/// Every implementation models a fixed-capacity array of bits, all `false`
/// at construction. `spec_get` gives the current value of each bit: after
/// any sequence of `set` calls, bit `k` holds the value of the most recent
/// `set(k, _)`, or `false` if `k` was never set.
pub trait Bitmap: Sized {
    /// The largest key the bitmap was declared for.
    ///
    /// The specification functions carry trivial defaults so that unverified
    /// code (such as a test double) can implement only the executable
    /// methods; every implementation in this crate overrides them.
    open spec fn spec_max_key(&self) -> int {
        0
    }

    /// The number of bit positions the backing storage covers. Storage is
    /// allocated in whole words, so this is `spec_max_key()` rounded up to
    /// a multiple of the word width.
    open spec fn spec_capacity(&self) -> int {
        0
    }

    /// Structural well-formedness of the backing storage.
    open spec fn wf(&self) -> bool {
        false
    }

    /// The current value of bit `key`; `false` outside the backed range.
    open spec fn spec_get(&self, key: int) -> bool {
        false
    }

    /// Construct an all-false bitmap able to hold keys up to `max_key`
    /// (rounded up to a whole word).
    fn new_with_capacity(max_key: usize) -> (r: Self)
        ensures
            r.wf(),
            r.spec_max_key() == max_key,
            r.spec_capacity() == 64 * spec_num_blocks(max_key as int),
            forall|k: int| !r.spec_get(k),
    ;

    /// Set bit indexed by `key` to `value`.
    fn set(&mut self, key: usize, value: bool)
        requires
            old(self).wf(),
            key <= old(self).spec_max_key(),
            key < old(self).spec_capacity(),
        ensures
            final(self).wf(),
            final(self).spec_max_key() == old(self).spec_max_key(),
            final(self).spec_capacity() == old(self).spec_capacity(),
            final(self).spec_get(key as int) == value,
            forall|k: int| k != key ==> final(self).spec_get(k) == old(self).spec_get(k),
    ;

    /// Return `true` if the given bit index was previously set to `true`.
    fn get(&self, key: usize) -> (r: bool)
        requires
            self.wf(),
            key <= self.spec_max_key(),
            key < self.spec_capacity(),
        ensures
            r == self.spec_get(key as int),
    ;

    /// A lower bound on the byte footprint: the storage the live contents
    /// occupy, not counting spare capacity. Implementations override it;
    /// the default suits unverified test doubles.
    open spec fn spec_byte_floor(&self) -> int {
        0
    }

    /// Return the size of the bitmap in bytes. The exact value may include
    /// spare allocator capacity, but it is never below the live contents'
    /// own footprint.
    fn byte_size(&self) -> (r: usize)
        requires
            self.wf(),
        ensures
            r >= self.spec_byte_floor(),
    ;

    /// Return the bitwise OR of both `self` and `other`.
    fn or(&self, other: &Self) -> (r: Self)
        requires
            self.wf(),
            other.wf(),
            self.spec_max_key() == other.spec_max_key(),
            self.spec_capacity() == other.spec_capacity(),
        ensures
            r.wf(),
            r.spec_max_key() == self.spec_max_key(),
            r.spec_capacity() == self.spec_capacity(),
            forall|k: int| r.spec_get(k) == (self.spec_get(k) || other.spec_get(k)),
    ;
}

/// Whether every key split from fingerprint `f` at key width `w` reads true
/// in `bitmap` — what a filter lookup for that fingerprint answers.
pub open spec fn spec_filter_contains<B: Bitmap>(bitmap: B, w: int, f: u64) -> bool {
    forall|i: int| 0 <= i < spec_num_keys(w) ==> bitmap.spec_get(spec_chunk_key(f, w, i))
}

/// **No false negatives.** Once every key of a fingerprint reads true, a
/// bitmap whose set of true bits only grew — by further inserts or by a
/// union — still answers true for that fingerprint: a recorded entry is
/// never downgraded.
pub proof fn lemma_contains_never_downgraded<B: Bitmap>(before: B, after: B, w: int, f: u64)
    requires
        spec_filter_contains(before, w, f),
        forall|k: int| before.spec_get(k) ==> after.spec_get(k),
    ensures
        spec_filter_contains(after, w, f),
{
    assert forall|i: int| 0 <= i < spec_num_keys(w) implies after.spec_get(
        spec_chunk_key(f, w, i),
    ) by {
        assert(before.spec_get(spec_chunk_key(f, w, i)));
    }
}

/// Relies on `BuildHasher::hash_one`: the 64-bit digest of `data` under the
/// given hasher. Nothing is assumed of the digest's value; the filter
/// treats whatever comes back as the fingerprint to split.
#[verifier::external_body]
fn hash_one_u64<H: BuildHasher, T: Hash>(hasher: &H, data: &T) -> u64 {
    hasher.hash_one(data)
}

/// Relies on `RandomState::new`: a randomly seeded hasher factory for the
/// default filter configuration. Nothing is assumed of it.
#[verifier::external_body]
fn new_random_state() -> RandomState {
    RandomState::new()
}

/// The number of bits a filter of the given key width addresses:
/// `2^(8 * width)`.
fn key_size_to_bits(k: FilterSize) -> (r: usize)
    requires
        k.spec_key_space() <= usize::MAX,
    ensures
        r == k.spec_key_space(),
{
    let bits: u64 = match k {
        FilterSize::KeyBytes1 => 256,
        FilterSize::KeyBytes2 => 65536,
        FilterSize::KeyBytes3 => 16777216,
        FilterSize::KeyBytes4 => 4294967296,
        FilterSize::KeyBytes5 => 1099511627776,
    };
    bits as usize
}

/// Construct [`Bloom2`] instances with varying parameters.
///
/// The builder pairs a hasher factory with a bitmap backing and a key
/// width; [`BloomFilterBuilder::build`] then assembles the filter.
pub struct BloomFilterBuilder<H, B> where H: BuildHasher, B: Bitmap {
    /// The hasher factory handed to the filter.
    pub hasher: H,
    /// The bitmap backing handed to the filter.
    pub bitmap: B,
    /// The key width handed to the filter.
    pub key_size: FilterSize,
}

impl<H, B> BloomFilterBuilder<H, B> where H: BuildHasher, B: Bitmap {
    /// The backing matches the key width: it was declared for exactly the
    /// key space the width addresses (which fits the platform's `usize`).
    pub open spec fn wf(&self) -> bool {
        &&& self.bitmap.wf()
        &&& self.key_size.spec_key_space() <= usize::MAX
        &&& self.bitmap.spec_max_key() == self.key_size.spec_key_space()
        &&& self.bitmap.spec_capacity() == self.key_size.spec_key_space()
    }

    /// Set the bit storage (bitmap) for the bloom filter.
    ///
    /// The caller is responsible for handing in a `bitmap` declared for
    /// exactly the key space of `key_size` — that is what the precondition
    /// states. Providing a non-empty `bitmap` restores the state of a
    /// previously built filter.
    pub fn bitmap<B2: Bitmap>(self, bitmap: B2, key_size: FilterSize) -> (r: BloomFilterBuilder<
        H,
        B2,
    >)
        requires
            bitmap.wf(),
            key_size.spec_key_space() <= usize::MAX,
            bitmap.spec_max_key() == key_size.spec_key_space(),
            bitmap.spec_capacity() == key_size.spec_key_space(),
        ensures
            r.wf(),
            r.bitmap == bitmap,
            r.key_size == key_size,
            r.hasher == self.hasher,
    {
        BloomFilterBuilder { hasher: self.hasher, bitmap, key_size }
    }

    /// Initialise the [`Bloom2`] instance with the provided parameters.
    pub fn build<T: Hash>(self) -> (r: Bloom2<H, B, T>)
        requires
            self.wf(),
        ensures
            r.wf(),
            r.bitmap == self.bitmap,
            r.key_size == self.key_size,
            r.hasher == self.hasher,
            forall|k: int| r.bitmap.spec_get(k) == self.bitmap.spec_get(k),
    {
        Bloom2 {
            hasher: self.hasher,
            bitmap: self.bitmap,
            key_size: self.key_size,
            _key_type: PhantomData,
        }
    }
}

impl<H> BloomFilterBuilder<H, CompressedBitmap> where H: BuildHasher {
    /// Control the in-memory size and false-positive probability of the
    /// filter.
    ///
    /// Setting the size replaces the current bitmap with a fresh, empty
    /// [`CompressedBitmap`] declared for the new width's key space (which
    /// must fit the platform's `usize`).
    pub fn size(self, size: FilterSize) -> (r: Self)
        requires
            size.spec_key_space() <= usize::MAX,
        ensures
            r.wf(),
            r.key_size == size,
            r.hasher == self.hasher,
            forall|k: int| !r.bitmap.spec_get(k),
    {
        let bitmap = CompressedBitmap::new(key_size_to_bits(size));
        Self { key_size: size, bitmap, hasher: self.hasher }
    }

    /// Initialise a `BloomFilterBuilder` that, unless changed, will
    /// construct a [`Bloom2`] instance using a 2-byte key and the specified
    /// hasher.
    pub fn hasher(hasher: H) -> (r: Self)
        ensures
            r.wf(),
            r.key_size == FilterSize::KeyBytes2,
            r.hasher == hasher,
            forall|k: int| !r.bitmap.spec_get(k),
    {
        let size = FilterSize::KeyBytes2;
        let bitmap = CompressedBitmap::new(key_size_to_bits(size));
        Self { hasher, bitmap, key_size: size }
    }
}

/// Initialise a `BloomFilterBuilder` that, unless changed, will construct a
/// [`Bloom2`] instance using a 2-byte key and a randomly seeded instance of
/// the standard library's default hasher.
impl Default for BloomFilterBuilder<RandomState, CompressedBitmap> {
    fn default() -> (r: Self)
        ensures
            r.wf(),
            r.key_size == FilterSize::KeyBytes2,
            forall|k: int| !r.bitmap.spec_get(k),
    {
        let size = FilterSize::KeyBytes2;
        let bitmap = CompressedBitmap::new(key_size_to_bits(size));
        BloomFilterBuilder { hasher: new_random_state(), bitmap, key_size: size }
    }
}

/// A fast, memory efficient, sparse bloom filter.
///
/// The filter obtains a 64-bit fingerprint for each value from its hasher,
/// splits the fingerprint's big-endian bytes into keys of the configured
/// width, and records every key in the bitmap backing. A lookup answers
/// true only when every key of the fingerprint reads true, so a recorded
/// value is always found again (no false negatives), while distinct values
/// may collide on all their keys (a bounded rate of false positives).
///
/// The exact recording and lookup semantics are stated on
/// [`Bloom2::insert_fingerprint`] and [`Bloom2::contains_fingerprint`],
/// which take the fingerprint directly; [`Bloom2::insert`] and
/// [`Bloom2::contains`] obtain it from the hasher first, and what the
/// hasher returns is outside this crate's reasoning.
#[derive(Debug, PartialEq)]
pub struct Bloom2<H, B, T> where H: BuildHasher, B: Bitmap {
    /// The hasher factory producing fingerprints.
    pub hasher: H,
    /// The bit storage.
    pub bitmap: B,
    /// The key width.
    pub key_size: FilterSize,
    /// The value type inserted, fixed at construction.
    pub _key_type: PhantomData<T>,
}

impl<H, B, T> Clone for Bloom2<H, B, T> where H: BuildHasher + Clone, B: Bitmap + Clone {
    /// An independent, fully owned copy: cloned filters share no backing
    /// storage. The cloned hasher and bitmap are whatever their own `Clone`
    /// impls produce; the key width is copied exactly.
    fn clone(&self) -> (r: Self)
        ensures
            r.key_size == self.key_size,
    {
        Bloom2 {
            hasher: self.hasher.clone(),
            bitmap: self.bitmap.clone(),
            key_size: self.key_size,
            _key_type: PhantomData,
        }
    }
}

impl<H, B, T> Bloom2<H, B, T> where H: BuildHasher, B: Bitmap, T: Hash {
    /// The backing matches the key width: it was declared for exactly the
    /// key space the width addresses (which fits the platform's `usize`),
    /// so every split key is storable.
    pub open spec fn wf(&self) -> bool {
        &&& self.bitmap.wf()
        &&& self.key_size.spec_key_space() <= usize::MAX
        &&& self.bitmap.spec_max_key() == self.key_size.spec_key_space()
        &&& self.bitmap.spec_capacity() == self.key_size.spec_key_space()
    }

    /// Record `fingerprint` in the filter: every key split from it is set
    /// to true, and no other bit changes. Afterwards a lookup for the same
    /// fingerprint answers true.
    pub fn insert_fingerprint(&mut self, fingerprint: u64)
        requires
            old(self).wf(),
        ensures
            final(self).wf(),
            final(self).key_size == old(self).key_size,
            final(self).hasher == old(self).hasher,
            forall|k: int|
                final(self).bitmap.spec_get(k) == (old(self).bitmap.spec_get(k)
                    || spec_is_chunk_key(fingerprint, old(self).key_size.spec_key_bytes(), k)),
            spec_filter_contains(
                final(self).bitmap,
                old(self).key_size.spec_key_bytes(),
                fingerprint,
            ),
    {
        let ghost w = self.key_size.spec_key_bytes();
        let keys = fingerprint_keys(fingerprint, self.key_size);
        let n = keys.len();
        let mut i: usize = 0;
        while i < n
            invariant
                i <= n,
                n == keys@.len(),
                n == spec_num_keys(w),
                w == self.key_size.spec_key_bytes(),
                forall|x: int| 0 <= x < n ==> keys@[x] == spec_chunk_key(fingerprint, w, x),
                forall|x: int| 0 <= x < n ==> keys@[x] < self.key_size.spec_key_space(),
                self.wf(),
                self.key_size == old(self).key_size,
                self.hasher == old(self).hasher,
                forall|k: int|
                    self.bitmap.spec_get(k) == (old(self).bitmap.spec_get(k) || exists|x: int|
                        0 <= x < i && k == spec_chunk_key(fingerprint, w, x)),
            decreases n - i,
        {
            let ghost prev = self.bitmap;
            self.bitmap.set(keys[i], true);
            proof {
                let ghost ii = i as int;
                assert forall|k: int|
                    self.bitmap.spec_get(k) == (old(self).bitmap.spec_get(k) || exists|x: int|
                        0 <= x < ii + 1 && k == spec_chunk_key(fingerprint, w, x)) by {
                    if k == keys@[ii] {
                        assert(0 <= ii < ii + 1 && k == spec_chunk_key(fingerprint, w, ii));
                    } else {
                        assert(self.bitmap.spec_get(k) == prev.spec_get(k));
                        if exists|x: int| 0 <= x < ii + 1 && k == spec_chunk_key(fingerprint, w, x) {
                            let x = choose|x: int|
                                0 <= x < ii + 1 && k == spec_chunk_key(fingerprint, w, x);
                            assert(x < ii);
                        }
                    }
                }
            }
            i = i + 1;
        }
        proof {
            assert forall|ii: int| 0 <= ii < spec_num_keys(w) implies self.bitmap.spec_get(
                spec_chunk_key(fingerprint, w, ii),
            ) by {
                assert(0 <= ii < spec_num_keys(w) && spec_chunk_key(fingerprint, w, ii)
                    == spec_chunk_key(fingerprint, w, ii));
            }
        }
    }

    /// Whether every key split from `fingerprint` reads true. Every key is
    /// consulted, in chunk order; a single false key proves the fingerprint
    /// was never recorded.
    pub fn contains_fingerprint(&self, fingerprint: u64) -> (r: bool)
        requires
            self.wf(),
        ensures
            r == spec_filter_contains(self.bitmap, self.key_size.spec_key_bytes(), fingerprint),
    {
        let ghost w = self.key_size.spec_key_bytes();
        let keys = fingerprint_keys(fingerprint, self.key_size);
        let n = keys.len();
        let mut found_all = true;
        let mut i: usize = 0;
        while i < n
            invariant
                i <= n,
                n == keys@.len(),
                n == spec_num_keys(w),
                w == self.key_size.spec_key_bytes(),
                forall|x: int| 0 <= x < n ==> keys@[x] == spec_chunk_key(fingerprint, w, x),
                forall|x: int| 0 <= x < n ==> keys@[x] < self.key_size.spec_key_space(),
                self.wf(),
                found_all == (forall|x: int|
                    0 <= x < i ==> self.bitmap.spec_get(spec_chunk_key(fingerprint, w, x))),
            decreases n - i,
        {
            let present = self.bitmap.get(keys[i]);
            found_all = found_all && present;
            i = i + 1;
        }
        found_all
    }

    /// Insert places `data` into the bloom filter.
    ///
    /// The hasher's 64-bit digest of `data` is recorded as by
    /// [`Bloom2::insert_fingerprint`]: bits only turn on, never off, so any
    /// subsequent [`Bloom2::contains`] for the same `data` (under the same
    /// hasher state) answers true.
    pub fn insert(&mut self, data: &T)
        requires
            old(self).wf(),
        ensures
            final(self).wf(),
            final(self).key_size == old(self).key_size,
            final(self).hasher == old(self).hasher,
            forall|k: int| old(self).bitmap.spec_get(k) ==> final(self).bitmap.spec_get(k),
            exists|f: u64|
                spec_filter_contains(
                    final(self).bitmap,
                    old(self).key_size.spec_key_bytes(),
                    f,
                ) && forall|k: int|
                    final(self).bitmap.spec_get(k) == (old(self).bitmap.spec_get(k)
                        || spec_is_chunk_key(f, old(self).key_size.spec_key_bytes(), k)),
    {
        let fingerprint = hash_one_u64(&self.hasher, data);
        self.insert_fingerprint(fingerprint);
        proof {
            let w = old(self).key_size.spec_key_bytes();
            assert(spec_filter_contains(self.bitmap, w, fingerprint) && forall|k: int|
                self.bitmap.spec_get(k) == (old(self).bitmap.spec_get(k) || spec_is_chunk_key(
                    fingerprint,
                    w,
                    k,
                )));
        }
    }

    /// Checks if `data` exists in the filter.
    ///
    /// If `contains` returns true, `data` has **probably** been inserted
    /// previously. If `contains` returns false, `data` has **definitely
    /// not** been inserted. The result is the lookup of the hasher's digest
    /// of `data`, as by [`Bloom2::contains_fingerprint`].
    pub fn contains(&self, data: &T) -> (r: bool)
        requires
            self.wf(),
        ensures
            exists|f: u64|
                r == spec_filter_contains(self.bitmap, self.key_size.spec_key_bytes(), f),
    {
        let fingerprint = hash_one_u64(&self.hasher, data);
        let r = self.contains_fingerprint(fingerprint);
        proof {
            assert(r == spec_filter_contains(
                self.bitmap,
                self.key_size.spec_key_bytes(),
                fingerprint,
            ));
        }
        r
    }

    /// Union two [`Bloom2`] instances of identical configuration, leaving
    /// the merged combination of both in `self`.
    ///
    /// Afterwards a bit is set exactly when it was set in either input, so
    /// the merged filter answers true for every value either input answered
    /// true for, and for no others.
    pub fn union(&mut self, other: &Self)
        requires
            old(self).wf(),
            other.wf(),
            old(self).key_size == other.key_size,
        ensures
            final(self).wf(),
            final(self).key_size == old(self).key_size,
            final(self).hasher == old(self).hasher,
            forall|k: int|
                final(self).bitmap.spec_get(k) == (old(self).bitmap.spec_get(k)
                    || other.bitmap.spec_get(k)),
    {
        let merged = self.bitmap.or(&other.bitmap);
        self.bitmap = merged;
    }

    /// Return the byte size of this filter's backing storage: possibly
    /// including spare allocator capacity, but never below the backing's
    /// live contents.
    pub fn byte_size(&mut self) -> (r: usize)
        requires
            old(self).wf(),
        ensures
            *final(self) == *old(self),
            r >= old(self).bitmap.spec_byte_floor(),
    {
        self.bitmap.byte_size()
    }
}

impl<H, T> Bloom2<H, CompressedBitmap, T> where H: BuildHasher, T: Hash {
    /// Minimise the memory usage of this instance by shrinking the
    /// underlying vectors, discarding their excess capacity. No observable
    /// query result changes.
    pub fn shrink_to_fit(&mut self)
        requires
            old(self).wf(),
        ensures
            final(self).wf(),
            final(self).key_size == old(self).key_size,
            final(self).hasher == old(self).hasher,
            forall|k: int| final(self).bitmap.spec_get(k) == old(self).bitmap.spec_get(k),
    {
        self.bitmap.shrink_to_fit();
    }
}

/// Initialise a [`Bloom2`] instance using the default implementation of
/// [`BloomFilterBuilder`]: a 2-byte key width, an empty
/// [`CompressedBitmap`], and a randomly seeded default hasher.
impl<T: Hash> Default for Bloom2<RandomState, CompressedBitmap, T> {
    fn default() -> (r: Self)
        ensures
            r.wf(),
            r.key_size == FilterSize::KeyBytes2,
            forall|k: int| !r.bitmap.spec_get(k),
    {
        BloomFilterBuilder::default().build()
    }
}

} // verus!
