//! A sparse, two-level bitmap with a low memory footprint, optimised for
//! reads.

use vstd::prelude::*;

use crate::bits::bm_bit;
use crate::bits::lemma_bit_index_in_seq;
use crate::bits::lemma_bits_andnot_single;
use crate::bits::lemma_bits_or;
use crate::bits::lemma_bits_or_single;
use crate::bits::lemma_bits_single;
use crate::bits::lemma_mask_test;
use crate::bits::lemma_nth_bit_zero;
use crate::bits::lemma_rank_after_block_set;
use crate::bits::lemma_rank_monotone;
use crate::bits::lemma_rank_present_lt;
use crate::bits::lemma_rank_step;
use crate::bits::lemma_rank_strict_mono;
use crate::bits::lemma_seq_count_zero;
use crate::bits::lemma_set_bit_nonzero;
use crate::bits::nth_bit;
use crate::bits::rank;
use crate::bits::seq_count;

use crate::bloom::Bitmap;

use super::vec::VecBitmap;

use super::bitmask_for_key;
use super::div_64_round_up;
use super::spec_bitmask_for_key;
use super::index_for_key;
use super::num_blocks_for;
use super::rank_for;
use super::spec_block_map_words;
use super::spec_num_blocks;

verus! {

/// A sparse, 2-level bitmap with a low memory footprint, optimised for reads.
///
/// A `CompressedBitmap` splits the bitmap up into blocks of 64 bits, and
/// uses a second bitmap (the block map) to mark populated blocks, lazily
/// allocating them as required. The compacted `bitmap` array holds only the
/// words of the populated blocks, in increasing block order; the physical
/// position of block `b` inside it is the number of set block-map bits at
/// positions strictly below `b` (a rank query).
///
/// The fields are public so that specifications can speak about them;
/// callers that write them directly forfeit the contracts, which all
/// assume [`CompressedBitmap::wf`]. Use [`CompressedBitmap::from_parts`] to
/// rebuild a checked instance from raw parts.
#[derive(Debug, Clone, PartialEq, Eq)]
pub struct CompressedBitmap {
    /// One bit per logical block; LSB of word 0 is block 0.
    pub block_map: Vec<u64>,
    /// The words of the populated blocks, in increasing block order.
    pub bitmap: Vec<u64>,
    /// The declared maximum key.
    pub max_key: usize,
}

impl CompressedBitmap {
    /// The number of logical 64-bit blocks the bitmap was declared for.
    pub open spec fn spec_blocks(&self) -> int {
        spec_num_blocks(self.max_key as int)
    }

    /// Whether `key` lies in the range this bitmap can store: at most the
    /// declared maximum, and inside a block the block map covers (the block
    /// map is allocated in whole words, so a maximum key just below a
    /// 4096-key boundary leaves the final partial block uncovered).
    pub open spec fn spec_key_in_range(&self, key: int) -> bool {
        &&& 0 <= key <= self.max_key
        &&& key / 64 < self.spec_blocks()
    }

    /// No stored word is all-zero. Freshly built bitmaps and insert-only
    /// histories keep this; only clearing the last bit of an allocated
    /// block leaves a zero word behind (its slot is deliberately never
    /// retracted).
    pub open spec fn spec_no_zero_words(&self) -> bool {
        forall|p: int| 0 <= p < self.bitmap@.len() ==> self.bitmap@[p] != 0u64
    }

    /// Every declared block's bit lies inside the block map.
    proof fn lemma_blocks_covered(&self)
        requires
            self.wf(),
        ensures
            self.spec_blocks() <= 64 * self.block_map@.len(),
    {
    }

    /// Construct a `CompressedBitmap` with space to hold keys up to
    /// `max_key`, rounded up to a whole 64-bit block.
    ///
    /// All bits start `false` and no block is allocated: only the block map
    /// is allocated up front, one bit per block.
    pub fn new(max_key: usize) -> (r: Self)
        ensures
            r.wf(),
            r.max_key == max_key,
            r.block_map@.len() == spec_block_map_words(max_key as int),
            forall|i: int| 0 <= i < r.block_map@.len() ==> r.block_map@[i] == 0u64,
            r.bitmap@.len() == 0,
            r.spec_no_zero_words(),
            forall|k: int| !r.spec_get(k),
    {
        let blocks = num_blocks_for(max_key);
        let words = div_64_round_up(blocks);
        let block_map = vec![0u64; words];
        let r = CompressedBitmap { block_map, bitmap: Vec::new(), max_key };
        proof {
            lemma_seq_count_zero(r.block_map@);
            assert forall|k: int| !r.spec_get(k) by {
                if 0 <= k && k / 64 < 64 * r.block_map@.len() {
                    lemma_bit_index_in_seq(r.block_map@, k / 64);
                    lemma_nth_bit_zero(((k / 64) % 64) as u64);
                }
            }
        }
        r
    }

    /// Returns the value at `key`.
    ///
    /// If a value for `key` was not previously set, `false` is returned.
    pub fn get(&self, key: usize) -> (r: bool)
        requires
            self.wf(),
            self.spec_key_in_range(key as int),
        ensures
            r == self.spec_get(key as int),
    {
        let block_index = index_for_key(key);
        proof {
            self.lemma_blocks_covered();
            lemma_bit_index_in_seq(self.block_map@, block_index as int);
        }
        let block_map_index = index_for_key(block_index);
        let block_map_bitmask = bitmask_for_key(block_index);
        proof {
            lemma_mask_test(self.block_map@[block_map_index as int], ((block_index as int) % 64) as u64);
        }
        if self.block_map[block_map_index] & block_map_bitmask == 0 {
            return false;
        }
        proof {
            super::lemma_vec_len_bound(&self.bitmap);
        }
        let offset = rank_for(&self.block_map, block_index);
        proof {
            lemma_rank_present_lt(self.block_map@, block_index as int);
            lemma_mask_test(self.bitmap@[offset as int], ((key as int) % 64) as u64);
        }
        self.bitmap[offset] & bitmask_for_key(key) != 0
    }

    /// Returns the allocated memory footprint of the bitmap in bytes: the
    /// capacity of both backing arrays plus the structure itself. The value
    /// depends on how much spare capacity the allocator handed out, so the
    /// contract only bounds it from below by the live contents.
    pub fn size(&self) -> (r: usize)
        ensures
            r >= 8 * self.block_map@.len(),
            r >= 8 * self.bitmap@.len(),
    {
        let a = super::vec_capacity(&self.block_map);
        let b = super::vec_capacity(&self.bitmap);
        (a * 8).saturating_add(b * 8).saturating_add(core::mem::size_of::<CompressedBitmap>())
    }

    /// Reduces the allocated memory usage of the bitmap to the minimum
    /// required for the current bitmap contents.
    ///
    /// This is useful to minimise the memory footprint of a populated,
    /// read-only `CompressedBitmap`. No observable query result changes.
    pub fn shrink_to_fit(&mut self)
        requires
            old(self).wf(),
        ensures
            final(self).wf(),
            final(self).block_map@ == old(self).block_map@,
            final(self).bitmap@ == old(self).bitmap@,
            final(self).max_key == old(self).max_key,
            forall|k: int| final(self).spec_get(k) == old(self).spec_get(k),
    {
        super::vec_shrink_to_fit(&mut self.bitmap);
        super::vec_shrink_to_fit(&mut self.block_map);
    }

    /// Resets the state of the bitmap.
    ///
    /// An efficient way to remove all elements in the bitmap to allow it to
    /// be reused: every block-map word is zeroed and the compacted array is
    /// truncated, without releasing the backing memory.
    pub fn clear(&mut self)
        requires
            old(self).wf(),
        ensures
            final(self).wf(),
            final(self).max_key == old(self).max_key,
            final(self).block_map@.len() == old(self).block_map@.len(),
            forall|i: int|
                0 <= i < final(self).block_map@.len() ==> final(self).block_map@[i] == 0u64,
            final(self).bitmap@.len() == 0,
            forall|k: int| !final(self).spec_get(k),
    {
        let n = self.block_map.len();
        let mut i: usize = 0;
        while i < n
            invariant
                i <= n,
                n == self.block_map@.len(),
                self.max_key == old(self).max_key,
                self.bitmap@ == old(self).bitmap@,
                forall|x: int| 0 <= x < i ==> self.block_map@[x] == 0u64,
            decreases n - i,
        {
            self.block_map[i] = 0;
            i = i + 1;
        }
        self.bitmap.truncate(0);
        proof {
            lemma_seq_count_zero(self.block_map@);
            assert forall|k: int| !self.spec_get(k) by {
                if 0 <= k && k / 64 < 64 * self.block_map@.len() {
                    lemma_bit_index_in_seq(self.block_map@, k / 64);
                    lemma_nth_bit_zero(((k / 64) % 64) as u64);
                }
            }
        }
    }

    /// Rebuild a bitmap from its raw parts, validating the structural
    /// invariant: the block map must span exactly the words a bitmap
    /// declared for `max_key` uses, and the compacted array must hold
    /// exactly one word per set block-map bit. Returns `None` when the
    /// parts do not fit together.
    pub fn from_parts(block_map: Vec<u64>, bitmap: Vec<u64>, max_key: usize) -> (r: Option<Self>)
        ensures
            r.is_some() <==> (block_map@.len() == spec_block_map_words(max_key as int)
                && seq_count(block_map@) == bitmap@.len()),
            match r {
                Some(c) => {
                    &&& c.wf()
                    &&& c.block_map@ == block_map@
                    &&& c.bitmap@ == bitmap@
                    &&& c.max_key == max_key
                },
                None => true,
            },
    {
        let blocks = num_blocks_for(max_key);
        let words = div_64_round_up(blocks);
        if block_map.len() != words {
            return None;
        }
        proof {
            super::lemma_block_map_words_fit(max_key as int);
        }
        let n = block_map.len();
        let mut count: usize = 0;
        let mut i: usize = 0;
        while i < n
            invariant
                i <= n,
                n == block_map@.len(),
                64 * n <= usize::MAX,
                count == seq_count(block_map@.subrange(0, i as int)),
                count <= 64 * i,
            decreases n - i,
        {
            proof {
                crate::bits::lemma_seq_count_step(block_map@, i as int);
                crate::bits::lemma_count_bits_bound(block_map@[i as int], 64);
            }
            count = count + super::popcount(block_map[i]);
            i = i + 1;
        }
        proof {
            crate::bits::lemma_subrange_full(block_map@);
        }
        if count != bitmap.len() {
            return None;
        }
        Some(CompressedBitmap { block_map, bitmap, max_key })
    }

    /// Sets the bit at `key` to `value`.
    ///
    /// When the key's block is already allocated the stored word is updated
    /// in place. When it is not, setting a `true` bit inserts a new word at
    /// the block's rank-derived offset (shifting all later words one slot
    /// right) and marks the block in the block map; setting a `false` bit
    /// is a no-op.
    ///
    /// Callers must respect the declared capacity: `key` may be at most
    /// `max_key`, and must lie inside a block the block map covers (see
    /// [`CompressedBitmap::spec_key_in_range`]).
    pub fn set(&mut self, key: usize, value: bool)
        requires
            old(self).wf(),
            old(self).spec_key_in_range(key as int),
        ensures
            final(self).wf(),
            final(self).max_key == old(self).max_key,
            final(self).block_map@.len() == old(self).block_map@.len(),
            final(self).spec_get(key as int) == value,
            forall|k: int| k != key ==> final(self).spec_get(k) == old(self).spec_get(k),
            ({
                let b = key as int / 64;
                let s = old(self).block_map@;
                let t = old(self).bitmap@;
                let m = spec_bitmask_for_key(key as int);
                if bm_bit(s, b) {
                    // An allocated block: only its stored word is rewritten.
                    &&& final(self).block_map@ == s
                    &&& final(self).bitmap@ == t.update(
                        rank(s, b) as int,
                        if value {
                            t[rank(s, b) as int] | m
                        } else {
                            t[rank(s, b) as int] & !m
                        },
                    )
                } else if value {
                    // First touch of the block: exactly its block-map bit is
                    // set and exactly its word is inserted at the block's
                    // rank, shifting the later words one slot right.
                    &&& final(self).block_map@ == s.update(
                        b / 64,
                        s[b / 64] | (1u64 << ((b % 64) as u64)),
                    )
                    &&& final(self).bitmap@ == t.insert(rank(s, b) as int, m)
                } else {
                    // Nothing to clear: both arrays are untouched.
                    &&& final(self).block_map@ == s
                    &&& final(self).bitmap@ == t
                }
            }),
            old(self).spec_no_zero_words() && value ==> final(self).spec_no_zero_words(),
    {
        let ghost s = self.block_map@;
        let ghost t = self.bitmap@;
        let ghost bi = key as int / 64;
        proof {
            self.lemma_blocks_covered();
            lemma_bit_index_in_seq(s, bi);
            super::lemma_vec_len_bound(&self.bitmap);
        }
        let block_index = index_for_key(key);
        let block_map_index = index_for_key(block_index);
        let block_map_bitmask = bitmask_for_key(block_index);
        proof {
            lemma_mask_test(s[block_map_index as int], ((block_index as int) % 64) as u64);
        }
        let offset = rank_for(&self.block_map, block_index);
        let bm_word = self.block_map[block_map_index];
        let mask = bitmask_for_key(key);
        let ghost j = ((key as int) % 64) as u64;
        if bm_word & block_map_bitmask == 0 {
            // The block has never been allocated.
            if !value {
                // Nothing to clear.
                return ;
            }
            // Insert the block's word at its rank-derived offset and mark
            // it in the block map.
            if offset >= self.bitmap.len() {
                self.bitmap.push(mask);
                proof {
                    crate::bits::lemma_subrange_full(t);
                    assert(self.bitmap@ =~= t.insert(offset as int, mask));
                }
            } else {
                self.bitmap.insert(offset, mask);
            }
            self.block_map[block_map_index] = bm_word | block_map_bitmask;
            proof {
                let s2 = self.block_map@;
                let t2 = self.bitmap@;
                assert(s2 == s.update(bi / 64, s[bi / 64] | (1u64 << ((bi % 64) as u64))));
                lemma_rank_after_block_set(s, bi);
                t.insert_ensures(offset as int, mask);
                lemma_bits_single(j);
                assert(self.spec_get(key as int));
                assert forall|k: int| k != key implies self.spec_get(k) == old(self).spec_get(
                    k,
                ) by {
                    if 0 <= k && k / 64 < 64 * s.len() {
                        let x = k / 64;
                        if x == bi {
                            assert(k % 64 != key as int % 64);
                            assert(rank(s2, x) == offset);
                            assert(t2[offset as int] == mask);
                            assert(!nth_bit(mask, (k % 64) as u64));
                            assert(!old(self).spec_get(k));
                            assert(!self.spec_get(k));
                        } else if bm_bit(s, x) {
                            lemma_rank_present_lt(s, x);
                            if x < bi {
                                lemma_rank_strict_mono(s, x, bi);
                                assert(rank(s2, x) == rank(s, x));
                                assert(t2[rank(s, x) as int] == t[rank(s, x) as int]);
                            } else {
                                lemma_rank_step(s, bi);
                                lemma_rank_monotone(s, bi + 1, x);
                                assert(rank(s2, x) == rank(s, x) + 1);
                                assert(t2[rank(s, x) as int + 1] == t[rank(s, x) as int]);
                            }
                        } else {
                            assert(!bm_bit(s2, x));
                        }
                    }
                }
                if old(self).spec_no_zero_words() {
                    lemma_set_bit_nonzero(mask, j);
                    assert forall|p: int| 0 <= p < t2.len() implies t2[p] != 0u64 by {
                        if p > offset {
                            assert(t2[p] == t[p - 1]);
                        }
                    }
                }
            }
            return ;
        }
        // The block map indicates the block is already allocated: mutate the
        // stored word in place.
        proof {
            lemma_rank_present_lt(s, bi);
        }
        let w = self.bitmap[offset];
        let w2 = if value {
            w | mask
        } else {
            w & !mask
        };
        self.bitmap[offset] = w2;
        proof {
            let t2 = self.bitmap@;
            if value {
                lemma_bits_or_single(w, j);
            } else {
                lemma_bits_andnot_single(w, j);
            }
            assert(self.spec_get(key as int) == value);
            assert forall|k: int| k != key implies self.spec_get(k) == old(self).spec_get(k) by {
                if 0 <= k && k / 64 < 64 * s.len() {
                    let x = k / 64;
                    if x == bi {
                        assert(k % 64 != key as int % 64);
                        assert(nth_bit(w2, (k % 64) as u64) == nth_bit(w, (k % 64) as u64));
                    } else if bm_bit(s, x) {
                        lemma_rank_present_lt(s, x);
                        if x < bi {
                            lemma_rank_strict_mono(s, x, bi);
                        } else {
                            lemma_rank_step(s, bi);
                            lemma_rank_monotone(s, bi + 1, x);
                        }
                        assert(rank(s, x) != offset);
                        assert(t2[rank(s, x) as int] == t[rank(s, x) as int]);
                    }
                }
            }
            if old(self).spec_no_zero_words() && value {
                lemma_set_bit_nonzero(w2, j);
            }
        }
    }

    /// The word stored for logical block `b`, as seen by specifications.
    pub open spec fn spec_block_word(&self, b: int) -> u64 {
        self.bitmap@[rank(self.block_map@, b) as int]
    }

    /// Perform a bitwise OR against `self` and `other`, returning the
    /// resulting merged `CompressedBitmap`.
    ///
    /// Both inputs must have been declared with the same `max_key`. The
    /// merge walks the two block maps bit by bit, keeping a running
    /// physical counter per side, and emits for every populated logical
    /// block either the one side's word verbatim or the OR of both sides'
    /// words — neither input is decompressed. The new block map is the
    /// word-wise OR of the two input block maps, so a union with an
    /// all-empty bitmap reproduces `self`'s arrays exactly.
    pub fn or(&self, other: &Self) -> (r: Self)
        requires
            self.wf(),
            other.wf(),
            self.max_key == other.max_key,
        ensures
            r.wf(),
            r.max_key == self.max_key,
            r.block_map@.len() == self.block_map@.len(),
            forall|i: int|
                0 <= i < r.block_map@.len() ==> r.block_map@[i] == (self.block_map@[i]
                    | other.block_map@[i]),
            forall|k: int| r.spec_get(k) == (self.spec_get(k) || other.spec_get(k)),
            forall|b: int|
                0 <= b < 64 * r.block_map@.len() && bm_bit(r.block_map@, b)
                    ==> r.spec_block_word(b) == (if bm_bit(self.block_map@, b) && bm_bit(
                    other.block_map@,
                    b,
                ) {
                    self.spec_block_word(b) | other.spec_block_word(b)
                } else if bm_bit(self.block_map@, b) {
                    self.spec_block_word(b)
                } else {
                    other.spec_block_word(b)
                }),
    {
        let ghost sa = self.block_map@;
        let ghost sb = other.block_map@;
        let n = self.block_map.len();
        proof {
            super::lemma_block_map_words_fit(self.max_key as int);
            super::lemma_vec_len_bound(&self.bitmap);
            super::lemma_vec_len_bound(&other.bitmap);
        }
        // The merged block map: a word-wise OR of the two inputs.
        let mut block_map: Vec<u64> = Vec::new();
        let mut i: usize = 0;
        while i < n
            invariant
                i <= n,
                n == sa.len(),
                n == sb.len(),
                sa == self.block_map@,
                sb == other.block_map@,
                block_map@.len() == i,
                forall|x: int| 0 <= x < i ==> block_map@[x] == (sa[x] | sb[x]),
            decreases n - i,
        {
            block_map.push(self.block_map[i] | other.block_map[i]);
            i = i + 1;
        }
        let ghost sm = block_map@;
        // The merged compacted array: walk the logical blocks in order,
        // tracking each side's physical position incrementally.
        let total_blocks = n * 64;
        let mut bitmap: Vec<u64> = Vec::new();
        let mut left_idx: usize = 0;
        let mut right_idx: usize = 0;
        let mut b: usize = 0;
        while b < total_blocks
            invariant
                b <= total_blocks,
                total_blocks == 64 * n,
                n == sa.len(),
                n == sb.len(),
                sa == self.block_map@,
                sb == other.block_map@,
                sm == block_map@,
                sm.len() == n,
                forall|x: int| 0 <= x < n ==> sm[x] == (sa[x] | sb[x]),
                self.wf(),
                other.wf(),
                left_idx == rank(sa, b as int),
                right_idx == rank(sb, b as int),
                bitmap@.len() == rank(sm, b as int),
                forall|x: int|
                    0 <= x < b && bm_bit(sm, x) ==> bitmap@[rank(sm, x) as int] == (if bm_bit(
                        sa,
                        x,
                    ) && bm_bit(sb, x) {
                        self.spec_block_word(x) | other.spec_block_word(x)
                    } else if bm_bit(sa, x) {
                        self.spec_block_word(x)
                    } else {
                        other.spec_block_word(x)
                    }),
            decreases total_blocks - b,
        {
            let word_index = b / 64;
            let bit: u64 = (b % 64) as u64;
            proof {
                lemma_bit_index_in_seq(sa, b as int);
            }
            let ghost prev = bitmap@;
            let lbit = (self.block_map[word_index] >> bit) & 1u64 == 1u64;
            let rbit = (other.block_map[word_index] >> bit) & 1u64 == 1u64;
            proof {
                super::lemma_vec_len_bound(&self.bitmap);
                super::lemma_vec_len_bound(&other.bitmap);
                assert(lbit == bm_bit(sa, b as int));
                assert(rbit == bm_bit(sb, b as int));
                lemma_bits_or(sa[word_index as int], sb[word_index as int]);
                lemma_rank_step(sa, b as int);
                lemma_rank_step(sb, b as int);
                lemma_rank_step(sm, b as int);
                if bm_bit(sa, b as int) {
                    lemma_rank_present_lt(sa, b as int);
                }
                if bm_bit(sb, b as int) {
                    lemma_rank_present_lt(sb, b as int);
                }
            }
            if lbit && rbit {
                bitmap.push(self.bitmap[left_idx] | other.bitmap[right_idx]);
                left_idx = left_idx + 1;
                right_idx = right_idx + 1;
            } else if lbit {
                bitmap.push(self.bitmap[left_idx]);
                left_idx = left_idx + 1;
            } else if rbit {
                bitmap.push(other.bitmap[right_idx]);
                right_idx = right_idx + 1;
            }
            proof {
                assert forall|x: int|
                    0 <= x < b + 1 && bm_bit(sm, x) implies bitmap@[rank(sm, x) as int] == (
                if bm_bit(sa, x) && bm_bit(sb, x) {
                    self.spec_block_word(x) | other.spec_block_word(x)
                } else if bm_bit(sa, x) {
                    self.spec_block_word(x)
                } else {
                    other.spec_block_word(x)
                }) by {
                    if x < b {
                        lemma_rank_strict_mono(sm, x, b as int);
                        assert(bitmap@[rank(sm, x) as int] == prev[rank(sm, x) as int]);
                    }
                }
            }
            b = b + 1;
        }
        let r = CompressedBitmap { block_map, bitmap, max_key: self.max_key };
        proof {
            crate::bits::lemma_rank_total(sm);
            assert(r.wf());
            assert forall|k: int| r.spec_get(k) == (self.spec_get(k) || other.spec_get(k)) by {
                if 0 <= k && k / 64 < 64 * n {
                    let x = k / 64;
                    lemma_bit_index_in_seq(sm, x);
                    lemma_bits_or(sa[x / 64], sb[x / 64]);
                    if bm_bit(sm, x) {
                        if bm_bit(sa, x) && bm_bit(sb, x) {
                            lemma_rank_present_lt(sa, x);
                            lemma_rank_present_lt(sb, x);
                            lemma_bits_or(self.spec_block_word(x), other.spec_block_word(x));
                        }
                    }
                }
            }
        }
        r
    }

    /// Build a `CompressedBitmap` from a dense [`VecBitmap`] in one forward
    /// pass, consuming the source: every all-zero word is elided, every
    /// other word is appended to the compacted array and marked in the
    /// block map. The result answers every `get` exactly as the dense
    /// source did.
    pub fn from(bitmap: VecBitmap) -> (r: Self)
        requires
            bitmap.wf(),
        ensures
            r.wf(),
            r.max_key == bitmap.max_key,
            r.block_map@.len() == spec_block_map_words(bitmap.max_key as int),
            forall|k: int| r.spec_get(k) == bitmap.spec_get(k),
            forall|x: int|
                0 <= x < 64 * r.block_map@.len() ==> bm_bit(r.block_map@, x) == (x
                    < bitmap.bitmap@.len() && bitmap.bitmap@[x] != 0u64),
            forall|x: int|
                0 <= x < bitmap.bitmap@.len() && bitmap.bitmap@[x] != 0u64 ==> r.bitmap@[rank(
                    r.block_map@,
                    x,
                ) as int] == bitmap.bitmap@[x],
            r.spec_no_zero_words(),
    {
        let ghost source = bitmap;
        let (dense, max_key) = bitmap.into_parts();
        let blocks = num_blocks_for(max_key);
        let words = div_64_round_up(blocks);
        proof {
            super::lemma_block_map_words_fit(max_key as int);
        }
        let mut block_map = vec![0u64; words];
        let mut compressed: Vec<u64> = Vec::new();
        let n = dense.len();
        let mut idx: usize = 0;
        proof {
            lemma_seq_count_zero(block_map@);
            assert forall|x: int| 0 <= x < 64 * block_map@.len() implies !bm_bit(
                block_map@,
                x,
            ) by {
                lemma_bit_index_in_seq(block_map@, x);
                lemma_nth_bit_zero(((x % 64) as int) as u64);
            }
        }
        while idx < n
            invariant
                idx <= n,
                n == dense@.len(),
                n == blocks,
                blocks == spec_num_blocks(max_key as int),
                words == spec_block_map_words(max_key as int),
                blocks <= 64 * words,
                block_map@.len() == words,
                compressed@.len() == seq_count(block_map@),
                seq_count(block_map@) == rank(block_map@, idx as int),
                forall|x: int|
                    0 <= x < 64 * block_map@.len() ==> bm_bit(block_map@, x) == (x < idx
                        && dense@[x] != 0u64),
                forall|x: int|
                    0 <= x < idx && dense@[x] != 0u64 ==> compressed@[rank(block_map@, x) as int]
                        == dense@[x],
            decreases n - idx,
        {
            let ghost prev_bm = block_map@;
            let ghost prev_c = compressed@;
            let w = dense[idx];
            proof {
                lemma_bit_index_in_seq(prev_bm, idx as int);
            }
            if w != 0 {
                compressed.push(w);
                let bm_idx = index_for_key(idx);
                let bm_mask = bitmask_for_key(idx);
                let bw = block_map[bm_idx];
                block_map[bm_idx] = bw | bm_mask;
                proof {
                    assert(block_map@ == prev_bm.update(
                        idx as int / 64,
                        prev_bm[idx as int / 64] | (1u64 << ((idx as int % 64) as u64)),
                    ));
                    lemma_rank_after_block_set(prev_bm, idx as int);
                    lemma_rank_step(block_map@, idx as int);
                    assert forall|x: int|
                        0 <= x < idx + 1 && dense@[x] != 0u64 implies compressed@[rank(
                        block_map@,
                        x,
                    ) as int] == dense@[x] by {
                        if x < idx {
                            lemma_rank_present_lt(prev_bm, x);
                            assert(rank(block_map@, x) == rank(prev_bm, x));
                        } else {
                            assert(rank(block_map@, x) == prev_c.len());
                        }
                    }
                }
            } else {
                proof {
                    lemma_rank_step(block_map@, idx as int);
                }
            }
            idx = idx + 1;
        }
        let r = CompressedBitmap { block_map, bitmap: compressed, max_key };
        proof {
            assert forall|k: int| r.spec_get(k) == source.spec_get(k) by {
                if 0 <= k && k / 64 < 64 * r.block_map@.len() {
                    let x = k / 64;
                    if x < n && dense@[x] != 0u64 {
                        assert(r.spec_block_word(x) == dense@[x]);
                    } else if 0 <= x < n {
                        lemma_nth_bit_zero(((k % 64) as int) as u64);
                    }
                }
            }
            assert forall|p: int| 0 <= p < r.bitmap@.len() implies r.bitmap@[p] != 0u64 by {
                crate::bits::lemma_rank_total(r.block_map@);
                crate::bits::lemma_rank_attained(
                    r.block_map@,
                    p,
                    64 * r.block_map@.len() as int,
                );
                let b = choose|b: int|
                    0 <= b < 64 * r.block_map@.len() && bm_bit(r.block_map@, b) && rank(
                        r.block_map@,
                        b,
                    ) == p;
                assert(r.bitmap@[p] == dense@[b]);
            }
        }
        r
    }

    /// The physical index inside the compacted array at which logical block
    /// `block_index` is stored, or `None` if that block was never allocated.
    pub fn block_offset(&self, block_index: usize) -> (r: Option<usize>)
        requires
            self.wf(),
            block_index < 64 * self.block_map@.len(),
        ensures
            r == if bm_bit(self.block_map@, block_index as int) {
                Some(rank(self.block_map@, block_index as int) as usize)
            } else {
                None::<usize>
            },
    {
        proof {
            lemma_bit_index_in_seq(self.block_map@, block_index as int);
        }
        let block_map_index = index_for_key(block_index);
        let block_map_bitmask = bitmask_for_key(block_index);
        proof {
            lemma_mask_test(self.block_map@[block_map_index as int], ((block_index as int) % 64) as u64);
        }
        if self.block_map[block_map_index] & block_map_bitmask == 0 {
            None
        } else {
            proof {
                super::lemma_vec_len_bound(&self.bitmap);
            }
            Some(rank_for(&self.block_map, block_index))
        }
    }
}

/// **Union with an empty bitmap is the identity, byte for byte.** When `r`
/// relates to `a` and an all-empty `e` the way [`CompressedBitmap::or`]'s
/// postconditions describe its result, `r`'s arrays are exactly `a`'s: the
/// merge copies every populated word verbatim and ORs the block maps with
/// zeros.
pub proof fn lemma_union_with_empty_identity(
    a: CompressedBitmap,
    e: CompressedBitmap,
    r: CompressedBitmap,
)
    requires
        a.wf(),
        r.wf(),
        e.block_map@.len() == a.block_map@.len(),
        forall|i: int| 0 <= i < e.block_map@.len() ==> e.block_map@[i] == 0u64,
        r.block_map@.len() == a.block_map@.len(),
        forall|i: int|
            0 <= i < r.block_map@.len() ==> r.block_map@[i] == (a.block_map@[i]
                | e.block_map@[i]),
        forall|b: int|
            0 <= b < 64 * r.block_map@.len() && bm_bit(r.block_map@, b)
                ==> r.spec_block_word(b) == (if bm_bit(a.block_map@, b) && bm_bit(
                e.block_map@,
                b,
            ) {
                a.spec_block_word(b) | e.spec_block_word(b)
            } else if bm_bit(a.block_map@, b) {
                a.spec_block_word(b)
            } else {
                e.spec_block_word(b)
            }),
    ensures
        r.block_map@ == a.block_map@,
        r.bitmap@ == a.bitmap@,
{
    assert forall|i: int| 0 <= i < r.block_map@.len() implies r.block_map@[i]
        == a.block_map@[i] by {
        let w = a.block_map@[i];
        assert(w | 0u64 == w) by (bit_vector);
    }
    assert(r.block_map@ =~= a.block_map@);
    assert forall|p: int| 0 <= p < r.bitmap@.len() implies r.bitmap@[p] == a.bitmap@[p] by {
        crate::bits::lemma_rank_total(r.block_map@);
        crate::bits::lemma_rank_attained(r.block_map@, p, 64 * r.block_map@.len() as int);
        let b = choose|b: int|
            0 <= b < 64 * r.block_map@.len() && bm_bit(r.block_map@, b) && rank(r.block_map@, b)
                == p;
        lemma_bit_index_in_seq(r.block_map@, b);
        lemma_nth_bit_zero(((b % 64) as int) as u64);
        assert(!bm_bit(e.block_map@, b));
        assert(r.spec_block_word(b) == a.spec_block_word(b));
    }
    assert(r.bitmap@ =~= a.bitmap@);
}

/// **Rebuilding a bitmap from its parts reproduces it observably.** Two
/// well-formed bitmaps over the same arrays — as when one was rebuilt from
/// the other's fields after a round trip through storage — answer every
/// `get` alike.
pub proof fn lemma_parts_round_trip(a: CompressedBitmap, b: CompressedBitmap)
    requires
        a.block_map@ == b.block_map@,
        a.bitmap@ == b.bitmap@,
    ensures
        forall|k: int| a.spec_get(k) == b.spec_get(k),
{
}

impl Bitmap for CompressedBitmap {
    open spec fn spec_max_key(&self) -> int {
        self.max_key as int
    }

    open spec fn spec_capacity(&self) -> int {
        64 * spec_num_blocks(self.max_key as int)
    }

    /// Structural well-formedness: the block map spans exactly the declared
    /// blocks, and the compacted array holds exactly one word per set
    /// block-map bit.
    open spec fn wf(&self) -> bool {
        &&& self.block_map@.len() == spec_block_map_words(self.max_key as int)
        &&& self.bitmap@.len() == seq_count(self.block_map@)
    }

    /// The current value of bit `key`: the value of the most recent
    /// `set(key, _)`, or `false` if the key was never set (or lies outside
    /// the backed range).
    open spec fn spec_get(&self, key: int) -> bool {
        let b = key / 64;
        &&& 0 <= key
        &&& b < 64 * self.block_map@.len()
        &&& bm_bit(self.block_map@, b)
        &&& nth_bit(self.bitmap@[rank(self.block_map@, b) as int], (key % 64) as u64)
    }

    fn new_with_capacity(max_key: usize) -> (r: Self) {
        CompressedBitmap::new(max_key)
    }

    fn set(&mut self, key: usize, value: bool) {
        CompressedBitmap::set(self, key, value)
    }

    fn get(&self, key: usize) -> (r: bool) {
        CompressedBitmap::get(self, key)
    }

    open spec fn spec_byte_floor(&self) -> int {
        if self.block_map@.len() >= self.bitmap@.len() {
            8 * self.block_map@.len() as int
        } else {
            8 * self.bitmap@.len() as int
        }
    }

    fn byte_size(&self) -> usize {
        self.size()
    }

    fn or(&self, other: &Self) -> (r: Self) {
        CompressedBitmap::or(self, other)
    }
}

} // verus!
