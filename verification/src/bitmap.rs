//! Bitmap implementations for the backing storage of a [`Bloom2`](crate::Bloom2).
//!
//! All variants agree on the key layout: key `k` lives in word `k / 64` at
//! bit `k % 64`, so conversion and union between variants are meaningful.

use vstd::prelude::*;

use crate::bits::count_bits;
use crate::bits::lemma_rank_monotone;
use crate::bits::lemma_rank_step;
use crate::bits::lemma_rank_total;
use crate::bits::lemma_seq_count_prefix_le;
use crate::bits::lemma_seq_count_step;
use crate::bits::pop;
use crate::bits::rank;
use crate::bits::seq_count;

mod bytes;
mod compressed_bitmap;
mod vec;

pub use bytes::BytesBitmap;
pub use compressed_bitmap::CompressedBitmap;
pub use vec::VecBitmap;

verus! {

/// The word that key `key` falls into.
pub open spec fn spec_index_for_key(key: int) -> int {
    key / 64
}

/// The one-bit mask of key `key` within its word.
pub open spec fn spec_bitmask_for_key(key: int) -> u64 {
    1u64 << ((key % 64) as u64)
}

/// How many 64-bit words a bitmap declared for keys up to `max_key` spans:
/// `max_key / 64`, rounded up.
pub open spec fn spec_num_blocks(max_key: int) -> int {
    if max_key % 64 == 0 {
        max_key / 64
    } else {
        max_key / 64 + 1
    }
}

/// How many 64-bit words a block map over `spec_num_blocks(max_key)` blocks
/// spans: one bit per block, rounded up to whole words.
pub open spec fn spec_block_map_words(max_key: int) -> int {
    let blocks = spec_num_blocks(max_key);
    if blocks % 64 == 0 {
        blocks / 64
    } else {
        blocks / 64 + 1
    }
}

#[inline(always)]
pub(crate) fn bitmask_for_key(key: usize) -> (r: u64)
    ensures
        r == spec_bitmask_for_key(key as int),
        r == 1u64 << ((key as int % 64) as u64),
{
    1u64 << ((key % 64) as u64)
}

#[inline(always)]
pub(crate) fn index_for_key(key: usize) -> (r: usize)
    ensures
        r == spec_index_for_key(key as int),
{
    key / 64
}

/// `max_key / 64`, rounded up, computed without overflowing.
pub(crate) fn num_blocks_for(max_key: usize) -> (r: usize)
    ensures
        r == spec_num_blocks(max_key as int),
{
    if max_key % 64 == 0 {
        max_key / 64
    } else {
        max_key / 64 + 1
    }
}

/// `n / 64`, rounded up.
pub(crate) fn div_64_round_up(n: usize) -> (r: usize)
    ensures
        r == if n as int % 64 == 0 {
            n as int / 64
        } else {
            n as int / 64 + 1
        },
{
    if n % 64 == 0 {
        n / 64
    } else {
        n / 64 + 1
    }
}

/// A vector's view never holds more than `usize::MAX` elements.
pub(crate) proof fn lemma_vec_len_bound(v: &Vec<u64>)
    ensures
        v@.len() <= usize::MAX,
{
    assert(v.len() == v@.len());
}

/// A block map sized for any representable `max_key` spans few enough words
/// that 64 times the word count still fits in a `usize`.
pub(crate) proof fn lemma_block_map_words_fit(max_key: int)
    requires
        0 <= max_key <= usize::MAX,
    ensures
        64 * spec_block_map_words(max_key) <= usize::MAX,
        spec_num_blocks(max_key) <= 64 * spec_block_map_words(max_key),
{
    let m = usize::MAX as int;
    let blocks = spec_num_blocks(max_key);
    let words = spec_block_map_words(max_key);
    vstd::arithmetic::div_mod::lemma_div_is_ordered(max_key, m, 64);
    assert(blocks <= m / 64 + 1);
    vstd::arithmetic::div_mod::lemma_div_is_ordered(blocks, m / 64 + 1, 64);
    assert(words <= (m / 64 + 1) / 64 + 1);
    assert(64 * words <= m) by (nonlinear_arith)
        requires
            words <= (m / 64 + 1) / 64 + 1,
            m >= 0xffff_ffff,
    ;
}

/// Relies on `Vec::capacity`: the capacity is at least the length, and a
/// `Vec<u64>`'s allocation never exceeds `isize::MAX` bytes, so eight times
/// the capacity fits in a `usize`.
#[verifier::external_body]
pub(crate) fn vec_capacity(v: &Vec<u64>) -> (r: usize)
    ensures
        v@.len() <= r,
        8 * r <= usize::MAX,
{
    v.capacity()
}

/// Relies on `Vec::shrink_to_fit`: it may release excess capacity but
/// leaves the vector's contents untouched.
#[verifier::external_body]
pub(crate) fn vec_shrink_to_fit(v: &mut Vec<u64>)
    ensures
        final(v)@ == old(v)@,
{
    v.shrink_to_fit()
}

/// The number of set bits in `w`, counted bit by bit.
pub(crate) fn popcount(w: u64) -> (r: usize)
    ensures
        r == pop(w),
        r <= 64,
{
    let mut c: usize = 0;
    let mut j: u64 = 0;
    while j < 64
        invariant
            j <= 64,
            c == count_bits(w, j as int),
            c <= j,
        decreases 64 - j,
    {
        if (w >> j) & 1u64 == 1u64 {
            c = c + 1;
        }
        j = j + 1;
    }
    c
}

/// The rank of logical bit `block` within the bit array held in `block_map`:
/// the number of set bits at positions strictly below `block`.
pub(crate) fn rank_for(block_map: &Vec<u64>, block: usize) -> (r: usize)
    requires
        block as int / 64 < block_map@.len(),
        seq_count(block_map@) <= usize::MAX,
    ensures
        r == rank(block_map@, block as int),
        r <= seq_count(block_map@),
{
    let s = Ghost(block_map@);
    let word_index = block / 64;
    let mut offset: usize = 0;
    let mut i: usize = 0;
    while i < word_index
        invariant
            i <= word_index,
            word_index < s@.len(),
            s@ == block_map@,
            seq_count(block_map@) <= usize::MAX,
            offset == seq_count(s@.subrange(0, i as int)),
            offset <= seq_count(s@),
        decreases word_index - i,
    {
        proof {
            lemma_seq_count_step(s@, i as int);
            lemma_seq_count_prefix_le(s@, i as int + 1);
        }
        offset = offset + popcount(block_map[i]);
        i = i + 1;
    }
    let bit_count = block % 64;
    let word = block_map[word_index];
    let mut j: usize = 0;
    proof {
        assert(64 * (block as int / 64) + block as int % 64 == block as int);
    }
    while j < bit_count
        invariant
            j <= bit_count,
            bit_count == block as int % 64,
            word_index == block as int / 64,
            word_index < s@.len(),
            s@ == block_map@,
            word == s@[word_index as int],
            seq_count(block_map@) <= usize::MAX,
            offset == seq_count(s@.subrange(0, word_index as int)) + count_bits(word, j as int),
            offset == rank(s@, 64 * word_index + j),
            offset <= seq_count(s@),
        decreases bit_count - j,
    {
        proof {
            let b = 64 * word_index + j;
            assert(b / 64 == word_index && b % 64 == j);
            lemma_rank_step(s@, b);
            lemma_rank_monotone(s@, b + 1, 64 * s@.len() as int);
            lemma_rank_total(s@);
        }
        if (word >> (j as u64)) & 1u64 == 1u64 {
            offset = offset + 1;
        }
        j = j + 1;
    }
    proof {
        if bit_count == 0 {
            assert(rank(s@, block as int) == seq_count(s@.subrange(0, word_index as int)));
        }
    }
    offset
}

} // verus!
