//! A self-contained sparse filter keyed directly by hash bytes.
//!
//! Unlike [`Bloom2`](crate::Bloom2), which hashes values itself, the filter
//! in this module is handed pre-computed hashes as byte strings and chunks
//! them into keys of a configured width. Its bit storage is the same
//! two-level [`CompressedBitmap`](crate::bitmap::CompressedBitmap) scheme.

use vstd::prelude::*;

use crate::bloom::bytes_to_usize_key;
use crate::bloom::Bitmap;
use crate::bloom::lemma_key_of_bytes_bound;
use crate::bloom::lemma_pow256_monotone;
use crate::bloom::spec_key_of_bytes;
use crate::bloom::spec_pow256;
use vstd::slice::slice_subrange;

verus! {

/// `FilterSize` bounds the allocated size of a [`CompressedBitmap`] filter.
///
/// The variant fixes the width in bytes of the keys chunked from each hash,
/// and with it the addressable key space (`2^(8 * width)` keys). The `k`
/// property of the filter follows as `hash length / width`, rounded up.
#[derive(Clone, Copy, Debug)]
pub enum FilterSize {
    /// 1 byte / 8 bits per key: 256 addressable keys.
    KeyBytes1,
    /// 2 bytes / 16 bits per key: 65,536 addressable keys.
    KeyBytes2,
    /// 3 bytes / 24 bits per key: ~16.8 million addressable keys.
    KeyBytes3,
    /// 4 bytes / 32 bits per key: ~4.3 billion addressable keys.
    KeyBytes4,
    /// 5 bytes / 40 bits per key: ~1.1 trillion addressable keys.
    KeyBytes5,
}

impl FilterSize {
    /// The key width in bytes.
    pub open spec fn spec_key_bytes(self) -> int {
        match self {
            FilterSize::KeyBytes1 => 1,
            FilterSize::KeyBytes2 => 2,
            FilterSize::KeyBytes3 => 3,
            FilterSize::KeyBytes4 => 4,
            FilterSize::KeyBytes5 => 5,
        }
    }

    /// The number of distinct keys a key of this width can address:
    /// `2^(8 * width)`.
    pub open spec fn spec_key_space(self) -> int {
        spec_pow256(self.spec_key_bytes())
    }

    /// The key width in bytes.
    pub fn key_bytes(self) -> (r: usize)
        ensures
            r == self.spec_key_bytes(),
    {
        match self {
            FilterSize::KeyBytes1 => 1,
            FilterSize::KeyBytes2 => 2,
            FilterSize::KeyBytes3 => 3,
            FilterSize::KeyBytes4 => 4,
            FilterSize::KeyBytes5 => 5,
        }
    }
}

/// How many keys a hash of `len` bytes is chunked into at key width `w`:
/// `len / w`, rounded up.
pub open spec fn spec_num_chunks(len: int, w: int) -> int {
    if len % w == 0 {
        len / w
    } else {
        len / w + 1
    }
}

/// The `i`-th key chunked from `hash` at key width `w`: the bytes
/// `[i * w, min((i + 1) * w, len))`, read as a big-endian unsigned integer.
pub open spec fn spec_chunk_of(hash: Seq<u8>, w: int, i: int) -> int {
    spec_key_of_bytes(
        hash.subrange(
            i * w,
            if (i + 1) * w <= hash.len() {
                (i + 1) * w
            } else {
                hash.len() as int
            },
        ),
    )
}

/// Whether `k` is one of the keys chunked from `hash` at width `w`.
pub open spec fn spec_has_chunk(hash: Seq<u8>, w: int, k: int) -> bool {
    exists|i: int| 0 <= i < spec_num_chunks(hash.len() as int, w) && k == spec_chunk_of(hash, w, i)
}

/// Whether every key chunked from `hash` at width `w` reads true in `bits`
/// — what a filter lookup for that hash answers.
pub open spec fn spec_contains_hash(
    bits: crate::bitmap::CompressedBitmap,
    hash: Seq<u8>,
    w: int,
) -> bool {
    forall|i: int|
        0 <= i < spec_num_chunks(hash.len() as int, w) ==> bits.spec_get(spec_chunk_of(hash, w, i))
}

/// **No false negatives.** Once every chunk of a hash reads true, a bit
/// storage whose set of true bits only grew — by further inserts — still
/// answers true for that hash: a recorded hash is never downgraded.
pub proof fn lemma_contains_hash_never_downgraded(
    before: crate::bitmap::CompressedBitmap,
    after: crate::bitmap::CompressedBitmap,
    hash: Seq<u8>,
    w: int,
)
    requires
        spec_contains_hash(before, hash, w),
        forall|k: int| before.spec_get(k) ==> after.spec_get(k),
    ensures
        spec_contains_hash(after, hash, w),
{
    assert forall|i: int| 0 <= i < spec_num_chunks(hash.len() as int, w) implies after.spec_get(
        spec_chunk_of(hash, w, i),
    ) by {
        assert(before.spec_get(spec_chunk_of(hash, w, i)));
    }
}

/// A key strictly below an exact multiple of the word width lies in a block
/// strictly below that multiple's block.
proof fn lemma_key_below_space(key: int, space: int)
    requires
        0 <= key < space,
        space % 64 == 0,
    ensures
        key / 64 < space / 64,
{
    if key / 64 >= space / 64 {
        assert(64 * (key / 64) >= 64 * (space / 64));
        assert(false);
    }
}

/// `CompressedBitmap` implements a sparse, 2-level bloom filter — a space
/// efficient, probabilistic set.
///
/// Users call [`CompressedBitmap::insert_hash`] with deterministic, unique
/// hashes (fingerprints) of their entries, as byte strings, and check the
/// existence of an entry with [`CompressedBitmap::contains_hash`]. Each
/// hash is chunked into keys of the configured width and every key is
/// recorded in the sparse bit storage; a lookup answers true only when
/// every key of the hash reads true, so a recorded hash is always found
/// again, while distinct hashes may collide on all their keys.
///
/// The fields are public so that specifications can speak about them;
/// callers that write them directly forfeit the contracts, which all
/// assume [`CompressedBitmap::wf`].
#[derive(Debug, Clone, PartialEq, Eq)]
pub struct CompressedBitmap {
    /// The width in bytes of the keys chunked from each hash.
    pub key_byte_size: usize,
    /// The sparse bit storage holding one bit per possible key.
    pub bitmap: crate::bitmap::CompressedBitmap,
}

impl CompressedBitmap {
    /// The key width is one of the configurable widths and the bit storage
    /// was declared for exactly its key space.
    pub open spec fn wf(&self) -> bool {
        &&& 1 <= self.key_byte_size <= 5
        &&& spec_pow256(self.key_byte_size as int) <= usize::MAX
        &&& self.bitmap.wf()
        &&& self.bitmap.spec_max_key() == spec_pow256(self.key_byte_size as int)
        &&& spec_pow256(self.key_byte_size as int) % 64 == 0
    }

    /// Initialises a new, empty filter configured to consume hashes in
    /// chunks of `key_byte_size` bytes to use as keys. The key space
    /// (`2^(8 * width)` bits) must fit the platform's `usize`.
    pub fn new(key_byte_size: FilterSize) -> (r: Self)
        requires
            key_byte_size.spec_key_space() <= usize::MAX,
        ensures
            r.wf(),
            r.key_byte_size == key_byte_size.spec_key_bytes(),
            r.bitmap.bitmap@.len() == 0,
            r.bitmap.spec_no_zero_words(),
            forall|k: int| !r.bitmap.spec_get(k),
    {
        let w = key_byte_size.key_bytes();
        proof {
            reveal_with_fuel(spec_pow256, 6);
        }
        let max_index: u64 = match key_byte_size {
            FilterSize::KeyBytes1 => 256,
            FilterSize::KeyBytes2 => 65536,
            FilterSize::KeyBytes3 => 16777216,
            FilterSize::KeyBytes4 => 4294967296,
            FilterSize::KeyBytes5 => 1099511627776,
        };
        let bitmap = crate::bitmap::CompressedBitmap::new(max_index as usize);
        CompressedBitmap { key_byte_size: w, bitmap }
    }

    /// Reduces the allocated memory usage of the filter to the minimum
    /// required for the current filter contents. No observable query result
    /// changes.
    pub fn shrink_to_fit(&mut self)
        requires
            old(self).wf(),
        ensures
            final(self).wf(),
            final(self).key_byte_size == old(self).key_byte_size,
            final(self).bitmap.block_map@ == old(self).bitmap.block_map@,
            final(self).bitmap.bitmap@ == old(self).bitmap.bitmap@,
            forall|k: int| final(self).bitmap.spec_get(k) == old(self).bitmap.spec_get(k),
    {
        self.bitmap.shrink_to_fit();
    }

    /// Resets the state of the filter, emptying it without releasing the
    /// backing memory.
    pub fn clear(&mut self)
        requires
            old(self).wf(),
        ensures
            final(self).wf(),
            final(self).key_byte_size == old(self).key_byte_size,
            final(self).bitmap.bitmap@.len() == 0,
            forall|k: int| !final(self).bitmap.spec_get(k),
    {
        self.bitmap.clear();
    }

    /// Inserts `hash` into the filter, chunking it into the configured key
    /// size: every key chunked from `hash` is set to true and no other bit
    /// changes, so a lookup for the same hash afterwards answers true.
    ///
    /// Calling `insert_hash` with a hash longer than the configured key
    /// size effectively increases the "hash" count, or `k` property, of the
    /// filter.
    pub fn insert_hash(&mut self, hash: &[u8])
        requires
            old(self).wf(),
        ensures
            final(self).wf(),
            final(self).key_byte_size == old(self).key_byte_size,
            forall|k: int|
                final(self).bitmap.spec_get(k) == (old(self).bitmap.spec_get(k) || spec_has_chunk(
                    hash@,
                    old(self).key_byte_size as int,
                    k,
                )),
            spec_contains_hash(final(self).bitmap, hash@, old(self).key_byte_size as int),
            old(self).bitmap.spec_no_zero_words() ==> final(self).bitmap.spec_no_zero_words(),
    {
        let ghost w = self.key_byte_size as int;
        let ghost space = spec_pow256(w);
        let n = hash.len();
        let ghost chunks = spec_num_chunks(n as int, w);
        let width = self.key_byte_size;
        let mut start: usize = 0;
        let ghost mut done: int = 0;
        proof {
            if n > 0 {
                assert(chunks > 0) by (nonlinear_arith)
                    requires
                        1 <= w,
                        n >= 1,
                        chunks == if n as int % w == 0 {
                            n as int / w
                        } else {
                            n as int / w + 1
                        },
                ;
            }
        }
        while start < n
            invariant
                0 <= start <= n,
                n == hash@.len(),
                1 <= width <= 5,
                width == w,
                self.wf(),
                self.key_byte_size == old(self).key_byte_size,
                w == self.key_byte_size as int,
                space == spec_pow256(w),
                chunks == spec_num_chunks(n as int, w),
                0 <= done,
                start == if w * done <= n {
                    w * done
                } else {
                    n as int
                },
                done <= chunks,
                start < n ==> done < chunks,
                old(self).bitmap.spec_no_zero_words() ==> self.bitmap.spec_no_zero_words(),
                forall|k: int|
                    self.bitmap.spec_get(k) == (old(self).bitmap.spec_get(k) || exists|x: int|
                        0 <= x < done && k == spec_chunk_of(hash@, w, x)),
            decreases n - start,
        {
            let remaining = n - start;
            let end = if remaining > width {
                start + width
            } else {
                n
            };
            let ghost i = done;
            proof {
                assert(w * i == i * w) by (nonlinear_arith);
                assert((i + 1) * w == i * w + w) by (nonlinear_arith);
                assert(hash@.subrange(start as int, end as int) == hash@.subrange(
                    i * w,
                    if (i + 1) * w <= hash@.len() {
                        (i + 1) * w
                    } else {
                        hash@.len() as int
                    },
                ));
                lemma_key_of_bytes_bound(hash@.subrange(start as int, end as int));
                lemma_pow256_monotone(end - start, w);
            }
            let chunk = slice_subrange(hash, start, end);
            let key = bytes_to_usize_key(chunk);
            proof {
                lemma_key_below_space(key as int, space);
            }
            let ghost prev = self.bitmap;
            self.bitmap.set(key, true);
            proof {
                done = done + 1;
                assert forall|k: int|
                    self.bitmap.spec_get(k) == (old(self).bitmap.spec_get(k) || exists|x: int|
                        0 <= x < done && k == spec_chunk_of(hash@, w, x)) by {
                    if k == key {
                        assert(0 <= i < done && k == spec_chunk_of(hash@, w, i));
                    } else {
                        assert(self.bitmap.spec_get(k) == prev.spec_get(k));
                        if exists|x: int| 0 <= x < done && k == spec_chunk_of(hash@, w, x) {
                            let x = choose|x: int|
                                0 <= x < done && k == spec_chunk_of(hash@, w, x);
                            assert(x < i);
                        }
                    }
                }
                if end < n {
                    assert(done < chunks) by (nonlinear_arith)
                        requires
                            done == i + 1,
                            0 <= i,
                            1 <= w,
                            w * i + w < n,
                            chunks == if n as int % w == 0 {
                                n as int / w
                            } else {
                                n as int / w + 1
                            },
                    ;
                }
                assert(w * (i + 1) == w * i + w) by (nonlinear_arith);
            }
            start = end;
        }
        proof {
            assert(done == chunks) by (nonlinear_arith)
                requires
                    w * done >= n,
                    done <= chunks,
                    1 <= w,
                    0 <= n,
                    chunks == if n as int % w == 0 {
                        n as int / w
                    } else {
                        n as int / w + 1
                    },
            ;
            assert forall|ii: int| 0 <= ii < chunks implies self.bitmap.spec_get(
                spec_chunk_of(hash@, w, ii),
            ) by {
                assert(0 <= ii < done && spec_chunk_of(hash@, w, ii) == spec_chunk_of(
                    hash@,
                    w,
                    ii,
                ));
            }
        }
    }

    /// Checks if `hash` exists in the filter: whether every key chunked
    /// from it reads true.
    ///
    /// If `contains_hash` returns true, `hash` has **probably** been
    /// inserted previously. If `contains_hash` returns false, `hash` has
    /// **definitely not** been inserted into the filter.
    pub fn contains_hash(&self, hash: &[u8]) -> (r: bool)
        requires
            self.wf(),
        ensures
            r == spec_contains_hash(self.bitmap, hash@, self.key_byte_size as int),
    {
        let ghost w = self.key_byte_size as int;
        let ghost space = spec_pow256(w);
        let n = hash.len();
        let ghost chunks = spec_num_chunks(n as int, w);
        let width = self.key_byte_size;
        let mut start: usize = 0;
        let ghost mut done: int = 0;
        proof {
            if n > 0 {
                assert(chunks > 0) by (nonlinear_arith)
                    requires
                        1 <= w,
                        n >= 1,
                        chunks == if n as int % w == 0 {
                            n as int / w
                        } else {
                            n as int / w + 1
                        },
                ;
            }
        }
        while start < n
            invariant
                0 <= start <= n,
                n == hash@.len(),
                1 <= width <= 5,
                width == w,
                self.wf(),
                w == self.key_byte_size as int,
                space == spec_pow256(w),
                chunks == spec_num_chunks(n as int, w),
                0 <= done,
                start == if w * done <= n {
                    w * done
                } else {
                    n as int
                },
                done <= chunks,
                start < n ==> done < chunks,
                forall|x: int| 0 <= x < done ==> self.bitmap.spec_get(spec_chunk_of(hash@, w, x)),
            decreases n - start,
        {
            let remaining = n - start;
            let end = if remaining > width {
                start + width
            } else {
                n
            };
            let ghost i = done;
            proof {
                assert(w * i == i * w) by (nonlinear_arith);
                assert((i + 1) * w == i * w + w) by (nonlinear_arith);
                assert(hash@.subrange(start as int, end as int) == hash@.subrange(
                    i * w,
                    if (i + 1) * w <= hash@.len() {
                        (i + 1) * w
                    } else {
                        hash@.len() as int
                    },
                ));
                lemma_key_of_bytes_bound(hash@.subrange(start as int, end as int));
                lemma_pow256_monotone(end - start, w);
            }
            let chunk = slice_subrange(hash, start, end);
            let key = bytes_to_usize_key(chunk);
            proof {
                lemma_key_below_space(key as int, space);
            }
            if !self.bitmap.get(key) {
                proof {
                    assert(key as int == spec_chunk_of(hash@, w, i));
                    assert(0 <= i < chunks);
                    assert(!self.bitmap.spec_get(spec_chunk_of(hash@, w, i)));
                }
                return false;
            }
            proof {
                done = done + 1;
                if end < n {
                    assert(done < chunks) by (nonlinear_arith)
                        requires
                            done == i + 1,
                            0 <= i,
                            1 <= w,
                            w * i + w < n,
                            chunks == if n as int % w == 0 {
                                n as int / w
                            } else {
                                n as int / w + 1
                            },
                    ;
                }
                assert(w * (i + 1) == w * i + w) by (nonlinear_arith);
            }
            start = end;
        }
        proof {
            assert(done == chunks) by (nonlinear_arith)
                requires
                    w * done >= n,
                    done <= chunks,
                    1 <= w,
                    0 <= n,
                    chunks == if n as int % w == 0 {
                        n as int / w
                    } else {
                        n as int / w + 1
                    },
            ;
        }
        true
    }
}

} // verus!
