//! The mathematical model of machine words as bit arrays.
//!
//! Every bitmap variant in this crate stores bits inside `u64` words (or
//! `u8` bytes for the byte-backed variant). This module defines what "bit
//! `i` of word `w`" means, the population count of a word and of a sequence
//! of words, and the rank function that turns a logical block index into a
//! physical offset inside a compacted array. The lemmas here are the
//! foundation for the sparse bitmap proofs.

use vstd::prelude::*;

verus! {

/// Bit `i` (counting from the least significant bit) of word `w`.
pub open spec fn nth_bit(w: u64, i: u64) -> bool {
    (w >> i) & 1u64 == 1u64
}

/// The number of set bits among the `n` least significant bits of `w`.
pub open spec fn count_bits(w: u64, n: int) -> nat
    decreases n,
{
    if n <= 0 {
        0
    } else {
        count_bits(w, n - 1) + if nth_bit(w, (n - 1) as u64) {
            1nat
        } else {
            0nat
        }
    }
}

/// The number of set bits in the whole word.
pub open spec fn pop(w: u64) -> nat {
    count_bits(w, 64)
}

/// At most `n` of the low `n` bits can be set.
pub proof fn lemma_count_bits_bound(w: u64, n: int)
    ensures
        count_bits(w, n) <= n || n < 0,
    decreases n,
{
    if n > 0 {
        lemma_count_bits_bound(w, n - 1);
    }
}

/// Flipping one clear bit to set raises the count by one exactly when the
/// flipped position lies below the counted range.
pub proof fn lemma_count_bits_set_one(w1: u64, w2: u64, b: u64, n: int)
    requires
        b < 64,
        !nth_bit(w1, b),
        nth_bit(w2, b),
        forall|j: u64| j < 64 && j != b ==> nth_bit(w1, j) == nth_bit(w2, j),
        n <= 64,
    ensures
        count_bits(w2, n) == count_bits(w1, n) + if b < n {
            1int
        } else {
            0int
        },
    decreases n,
{
    if n > 0 {
        lemma_count_bits_set_one(w1, w2, b, n - 1);
    }
}

/// The all-zero word has no set bits.
pub proof fn lemma_count_bits_zero(n: int)
    ensures
        count_bits(0u64, n) == 0,
    decreases n,
{
    if n > 0 {
        lemma_count_bits_zero(n - 1);
        let j = (n - 1) as u64;
        assert((0u64 >> j) & 1u64 == 0u64) by (bit_vector);
    }
}

/// No bit of the all-zero word is set.
pub proof fn lemma_nth_bit_zero(j: u64)
    ensures
        !nth_bit(0u64, j),
{
    assert((0u64 >> j) & 1u64 == 0u64) by (bit_vector);
}

/// A word with a set bit is not zero.
pub proof fn lemma_set_bit_nonzero(w: u64, j: u64)
    requires
        nth_bit(w, j),
    ensures
        w != 0u64,
{
    if w == 0u64 {
        lemma_nth_bit_zero(j);
    }
}

/// Setting bit `j` by an OR sets that bit and leaves every other bit alone.
pub proof fn lemma_bits_or_single(w: u64, j: u64)
    requires
        j < 64,
    ensures
        nth_bit(w | (1u64 << j), j),
        forall|k: u64| k < 64 && k != j ==> nth_bit(w | (1u64 << j), k) == nth_bit(w, k),
{
    assert(((w | (1u64 << j)) >> j) & 1u64 == 1u64) by (bit_vector)
        requires j < 64;
    assert forall|k: u64| k < 64 && k != j implies nth_bit(w | (1u64 << j), k) == nth_bit(w, k) by {
        assert((((w | (1u64 << j)) >> k) & 1u64) == ((w >> k) & 1u64)) by (bit_vector)
            requires j < 64 && k < 64 && k != j;
    }
}

/// Clearing bit `j` by an AND with the mask's complement clears that bit and
/// leaves every other bit alone.
pub proof fn lemma_bits_andnot_single(w: u64, j: u64)
    requires
        j < 64,
    ensures
        !nth_bit(w & !(1u64 << j), j),
        forall|k: u64| k < 64 && k != j ==> nth_bit(w & !(1u64 << j), k) == nth_bit(w, k),
{
    assert(((w & !(1u64 << j)) >> j) & 1u64 == 0u64) by (bit_vector)
        requires j < 64;
    assert forall|k: u64| k < 64 && k != j implies nth_bit(w & !(1u64 << j), k) == nth_bit(w, k) by {
        assert((((w & !(1u64 << j)) >> k) & 1u64) == ((w >> k) & 1u64)) by (bit_vector)
            requires j < 64 && k < 64 && k != j;
    }
}

/// A one-bit mask has exactly bit `j` set.
pub proof fn lemma_bits_single(j: u64)
    requires
        j < 64,
    ensures
        nth_bit(1u64 << j, j),
        forall|k: u64| k < 64 && k != j ==> !nth_bit(1u64 << j, k),
{
    assert(((1u64 << j) >> j) & 1u64 == 1u64) by (bit_vector)
        requires j < 64;
    assert forall|k: u64| k < 64 && k != j implies !nth_bit(1u64 << j, k) by {
        assert(((1u64 << j) >> k) & 1u64 == 0u64) by (bit_vector)
            requires j < 64 && k < 64 && k != j;
    }
}

/// Each bit of an OR of two words is the disjunction of their bits.
pub proof fn lemma_bits_or(w1: u64, w2: u64)
    ensures
        forall|k: u64| k < 64 ==> nth_bit(w1 | w2, k) == (nth_bit(w1, k) || nth_bit(w2, k)),
{
    assert forall|k: u64| k < 64 implies nth_bit(w1 | w2, k) == (nth_bit(w1, k) || nth_bit(
        w2,
        k,
    )) by {
        assert((((w1 | w2) >> k) & 1u64 == 1u64) == (((w1 >> k) & 1u64 == 1u64) || ((w2 >> k)
            & 1u64 == 1u64))) by (bit_vector)
            requires k < 64;
    }
}

/// The number of set bits in a sequence of words.
pub open spec fn seq_count(s: Seq<u64>) -> nat
    decreases s.len(),
{
    if s.len() == 0 {
        0
    } else {
        seq_count(s.drop_last()) + pop(s.last())
    }
}

/// A sequence of all-zero words holds no set bits.
pub proof fn lemma_seq_count_zero(s: Seq<u64>)
    requires
        forall|i: int| 0 <= i < s.len() ==> s[i] == 0u64,
    ensures
        seq_count(s) == 0,
    decreases s.len(),
{
    if s.len() > 0 {
        lemma_seq_count_zero(s.drop_last());
        lemma_count_bits_zero(64);
    }
}

/// Whether the logical bit `b` of the concatenated bit array held in `s` is
/// set (word `b / 64`, bit `b % 64`).
pub open spec fn bm_bit(s: Seq<u64>, b: int) -> bool {
    nth_bit(s[b / 64], (b % 64) as u64)
}

/// The rank of position `b`: how many of the logical bits strictly below `b`
/// are set. Meaningful for `0 <= b <= 64 * s.len()`.
pub open spec fn rank(s: Seq<u64>, b: int) -> nat {
    seq_count(s.subrange(0, b / 64)) + if b % 64 == 0 {
        0nat
    } else {
        count_bits(s[b / 64], b % 64)
    }
}

/// Counting one more word adds that word's population count.
pub proof fn lemma_seq_count_step(s: Seq<u64>, i: int)
    requires
        0 <= i < s.len(),
    ensures
        seq_count(s.subrange(0, i + 1)) == seq_count(s.subrange(0, i)) + pop(s[i]),
{
    let t = s.subrange(0, i + 1);
    assert(t.drop_last() =~= s.subrange(0, i));
    assert(t.last() == s[i]);
}

/// A sequence is its own full subrange.
pub proof fn lemma_subrange_full(s: Seq<u64>)
    ensures
        s.subrange(0, s.len() as int) =~= s,
{
}

/// Replacing one word changes the total count by the difference of the two
/// words' population counts.
pub proof fn lemma_seq_count_update(s: Seq<u64>, i: int, w: u64)
    requires
        0 <= i < s.len(),
    ensures
        seq_count(s.update(i, w)) + pop(s[i]) == seq_count(s) + pop(w),
    decreases s.len(),
{
    let s2 = s.update(i, w);
    if i == s.len() - 1 {
        assert(s2.drop_last() =~= s.drop_last());
        assert(s2.last() == w);
    } else {
        assert(s2.drop_last() =~= s.drop_last().update(i, w));
        assert(s2.last() == s.last());
        lemma_seq_count_update(s.drop_last(), i, w);
    }
}

/// Rank grows across position `b` exactly when bit `b` is set.
pub proof fn lemma_rank_step(s: Seq<u64>, b: int)
    requires
        0 <= b < 64 * s.len(),
    ensures
        rank(s, b + 1) == rank(s, b) + if bm_bit(s, b) {
            1nat
        } else {
            0nat
        },
{
    let q = b / 64;
    let r = b % 64;
    assert(0 <= r < 64);
    assert(64 * q + r == b);
    assert(q < s.len()) by {
        if q >= s.len() {
            assert(64 * q >= 64 * s.len()) by (nonlinear_arith)
                requires q >= s.len();
        }
    }
    if r == 63 {
        assert((b + 1) / 64 == q + 1 && (b + 1) % 64 == 0);
        lemma_seq_count_step(s, q);
        assert(count_bits(s[q], 64) == count_bits(s[q], 63) + if nth_bit(s[q], 63u64) {
            1nat
        } else {
            0nat
        });
    } else {
        assert((b + 1) / 64 == q && (b + 1) % 64 == r + 1);
        assert(count_bits(s[q], r + 1) == count_bits(s[q], r) + if nth_bit(s[q], r as u64) {
            1nat
        } else {
            0nat
        });
        if r == 0 {
            assert(count_bits(s[q], 0) == 0);
        }
    }
}

/// The rank of the one-past-the-end position is the total count.
pub proof fn lemma_rank_total(s: Seq<u64>)
    ensures
        rank(s, 64 * s.len() as int) == seq_count(s),
{
    let b = 64 * s.len() as int;
    assert(b / 64 == s.len() && b % 64 == 0);
    lemma_subrange_full(s);
}

/// Rank never decreases as the position grows.
pub proof fn lemma_rank_monotone(s: Seq<u64>, b1: int, b2: int)
    requires
        0 <= b1 <= b2 <= 64 * s.len(),
    ensures
        rank(s, b1) <= rank(s, b2),
    decreases b2 - b1,
{
    if b1 < b2 {
        lemma_rank_step(s, b2 - 1);
        lemma_rank_monotone(s, b1, b2 - 1);
    }
}

/// A set bit's rank lies strictly below the total count, so it is a valid
/// index into an array of `seq_count(s)` entries.
pub proof fn lemma_rank_present_lt(s: Seq<u64>, b: int)
    requires
        0 <= b < 64 * s.len(),
        bm_bit(s, b),
    ensures
        rank(s, b) < seq_count(s),
{
    lemma_rank_step(s, b);
    lemma_rank_monotone(s, b + 1, 64 * s.len() as int);
    lemma_rank_total(s);
}

/// Distinct set bits have distinct ranks, in position order.
pub proof fn lemma_rank_strict_mono(s: Seq<u64>, b1: int, b2: int)
    requires
        0 <= b1 < b2 <= 64 * s.len(),
        bm_bit(s, b1),
    ensures
        rank(s, b1) < rank(s, b2),
{
    lemma_rank_step(s, b1);
    lemma_rank_monotone(s, b1 + 1, b2);
}

/// Testing a one-bit mask against a word reads exactly that bit.
pub proof fn lemma_mask_test(w: u64, j: u64)
    requires
        j < 64,
    ensures
        (w & (1u64 << j) != 0) == nth_bit(w, j),
{
    assert((w & (1u64 << j) != 0) == ((w >> j) & 1u64 == 1u64)) by (bit_vector)
        requires j < 64;
}

/// Testing a one-bit mask against a byte reads exactly that bit.
pub proof fn lemma_mask_test8(w: u8, j: u8)
    requires
        j < 8,
    ensures
        (w & (1u8 << j) != 0) == nth_bit8(w, j),
{
    assert((w & (1u8 << j) != 0) == ((w >> j) & 1u8 == 1u8)) by (bit_vector)
        requires j < 8;
}

/// A prefix never holds more set bits than the whole sequence.
pub proof fn lemma_seq_count_prefix_le(s: Seq<u64>, i: int)
    requires
        0 <= i <= s.len(),
    ensures
        seq_count(s.subrange(0, i)) <= seq_count(s),
{
    assert(rank(s, 64 * i) == seq_count(s.subrange(0, i)));
    lemma_rank_monotone(s, 64 * i, 64 * s.len() as int);
    lemma_rank_total(s);
}

/// Every physical index below the total count is the rank of some set bit:
/// the compacted array has no unused slots.
pub proof fn lemma_rank_attained(s: Seq<u64>, p: int, n: int)
    requires
        0 <= p,
        0 <= n <= 64 * s.len(),
        rank(s, n) > p,
    ensures
        exists|b: int| 0 <= b < n && bm_bit(s, b) && rank(s, b) == p,
    decreases n,
{
    assert(rank(s, 0) == 0) by {
        assert(s.subrange(0, 0) =~= Seq::<u64>::empty());
    }
    lemma_rank_step(s, n - 1);
    if rank(s, n - 1) > p {
        lemma_rank_attained(s, p, n - 1);
    } else {
        assert(bm_bit(s, n - 1) && rank(s, n - 1) == p);
    }
}

/// A position below the end of the bit array lies in a word of the sequence.
pub proof fn lemma_bit_index_in_seq(s: Seq<u64>, b: int)
    requires
        0 <= b < 64 * s.len(),
    ensures
        0 <= b / 64 < s.len(),
{
    if b / 64 >= s.len() {
        assert(64 * (b / 64) >= 64 * s.len()) by (nonlinear_arith)
            requires b / 64 >= s.len();
    }
}

/// Setting the clear bit `b` of the bit array held in `s` raises the total
/// count by one, raises the rank of every position above `b` by one, and
/// leaves every other bit and every rank up to `b` alone.
pub proof fn lemma_rank_after_block_set(s: Seq<u64>, b: int)
    requires
        0 <= b < 64 * s.len(),
        !bm_bit(s, b),
    ensures
        ({
            let s2 = s.update(b / 64, s[b / 64] | (1u64 << ((b % 64) as u64)));
            &&& seq_count(s2) == seq_count(s) + 1
            &&& forall|x: int| 0 <= x <= b ==> rank(s2, x) == rank(s, x)
            &&& forall|x: int| b < x <= 64 * s.len() ==> rank(s2, x) == rank(s, x) + 1
            &&& forall|x: int|
                0 <= x < 64 * s.len() ==> bm_bit(s2, x) == (bm_bit(s, x) || x == b)
        }),
{
    let q = b / 64;
    let r = (b % 64) as u64;
    let w = s[q];
    let w2 = (w | (1u64 << r));
    let s2 = s.update(q, w2);
    lemma_bit_index_in_seq(s, b);
    lemma_bits_or_single(w, r);
    lemma_count_bits_set_one(w, w2, r, 64);
    lemma_seq_count_update(s, q, w2);
    assert(seq_count(s2) == seq_count(s) + 1);
    assert forall|x: int| 0 <= x < 64 * s.len() implies bm_bit(s2, x) == (bm_bit(s, x) || x
        == b) by {
        lemma_bit_index_in_seq(s, x);
        let xq = x / 64;
        let xr = (x % 64) as u64;
        if xq == q {
            if x != b {
                assert(x % 64 != b % 64);
            }
        }
    }
    assert forall|x: int| 0 <= x <= b implies rank(s2, x) == rank(s, x) by {
        let xq = x / 64;
        assert(xq <= q);
        assert(s2.subrange(0, xq) =~= s.subrange(0, xq));
        if x % 64 != 0 {
            if xq == q {
                assert(x % 64 <= b % 64);
                lemma_count_bits_set_one(w, w2, r, x % 64);
            }
        }
    }
    assert forall|x: int| b < x <= 64 * s.len() implies rank(s2, x) == rank(s, x) + 1 by {
        let xq = x / 64;
        assert(xq >= q);
        if xq == q {
            assert(x % 64 > b % 64);
            lemma_count_bits_set_one(w, w2, r, x % 64);
            assert(s2.subrange(0, xq) =~= s.subrange(0, xq));
        } else {
            assert(s2.subrange(0, xq) =~= s.subrange(0, xq).update(q, w2));
            lemma_seq_count_update(s.subrange(0, xq), q, w2);
            if x % 64 != 0 {
                assert(s2[xq] == s[xq]);
            }
        }
    }
}

/// A position below the end of a byte-backed bit array lies in a byte of
/// the sequence.
pub proof fn lemma_bit_index_in_bytes(s: Seq<u8>, b: int)
    requires
        0 <= b < 8 * s.len(),
    ensures
        0 <= b / 8 < s.len(),
{
    if b / 8 >= s.len() {
        assert(8 * (b / 8) >= 8 * s.len()) by (nonlinear_arith)
            requires b / 8 >= s.len();
    }
}

/// Bit `i` (counting from the least significant bit) of byte `w`.
pub open spec fn nth_bit8(w: u8, i: u8) -> bool {
    (w >> i) & 1u8 == 1u8
}

/// No bit of the all-zero byte is set.
pub proof fn lemma_nth_bit8_zero(j: u8)
    ensures
        !nth_bit8(0u8, j),
{
    assert((0u8 >> j) & 1u8 == 0u8) by (bit_vector);
}

/// Setting bit `j` of a byte by an OR sets that bit and leaves every other
/// bit alone.
pub proof fn lemma_bits8_or_single(w: u8, j: u8)
    requires
        j < 8,
    ensures
        nth_bit8(w | (1u8 << j), j),
        forall|k: u8| k < 8 && k != j ==> nth_bit8(w | (1u8 << j), k) == nth_bit8(w, k),
{
    assert(((w | (1u8 << j)) >> j) & 1u8 == 1u8) by (bit_vector)
        requires j < 8;
    assert forall|k: u8| k < 8 && k != j implies nth_bit8(w | (1u8 << j), k) == nth_bit8(w, k) by {
        assert((((w | (1u8 << j)) >> k) & 1u8) == ((w >> k) & 1u8)) by (bit_vector)
            requires j < 8 && k < 8 && k != j;
    }
}

/// Clearing bit `j` of a byte clears that bit and leaves every other bit
/// alone.
pub proof fn lemma_bits8_andnot_single(w: u8, j: u8)
    requires
        j < 8,
    ensures
        !nth_bit8(w & !(1u8 << j), j),
        forall|k: u8| k < 8 && k != j ==> nth_bit8(w & !(1u8 << j), k) == nth_bit8(w, k),
{
    assert(((w & !(1u8 << j)) >> j) & 1u8 == 0u8) by (bit_vector)
        requires j < 8;
    assert forall|k: u8| k < 8 && k != j implies nth_bit8(w & !(1u8 << j), k) == nth_bit8(w, k) by {
        assert((((w & !(1u8 << j)) >> k) & 1u8) == ((w >> k) & 1u8)) by (bit_vector)
            requires j < 8 && k < 8 && k != j;
    }
}

/// Each bit of an OR of two bytes is the disjunction of their bits.
pub proof fn lemma_bits8_or(w1: u8, w2: u8)
    ensures
        forall|k: u8| k < 8 ==> nth_bit8(w1 | w2, k) == (nth_bit8(w1, k) || nth_bit8(w2, k)),
{
    assert forall|k: u8| k < 8 implies nth_bit8(w1 | w2, k) == (nth_bit8(w1, k) || nth_bit8(
        w2,
        k,
    )) by {
        assert((((w1 | w2) >> k) & 1u8 == 1u8) == (((w1 >> k) & 1u8 == 1u8) || ((w2 >> k) & 1u8
            == 1u8))) by (bit_vector)
            requires k < 8;
    }
}

} // verus!
