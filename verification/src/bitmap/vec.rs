//! A flat, fully allocated bitmap.

use vstd::prelude::*;

use crate::bits::lemma_bits_andnot_single;
use crate::bits::lemma_bits_or;
use crate::bits::lemma_bits_or_single;
use crate::bits::lemma_mask_test;
use crate::bits::lemma_nth_bit_zero;
use crate::bits::nth_bit;
use crate::bloom::Bitmap;

use super::bitmask_for_key;
use super::index_for_key;
use super::num_blocks_for;
use super::spec_num_blocks;

verus! {

/// A plain, heap-allocated, `O(1)` indexed bitmap.
///
/// This bitmap requires `O(n)` space in its declared capacity and can be
/// read and written in `O(1)` time. It is fast for both reads and writes,
/// trading additional space for the additional performance; it also serves
/// as the high-throughput write path from which a
/// [`CompressedBitmap`](crate::CompressedBitmap) can be built in one pass.
/// The fields are public so that specifications can speak about them;
/// callers that write them directly forfeit the contracts, which all
/// assume [`Bitmap::wf`].
#[derive(Debug, Clone, PartialEq, Eq)]
pub struct VecBitmap {
    /// The backing words; key `k` lives in word `k / 64` at bit `k % 64`.
    pub bitmap: Vec<u64>,
    /// The declared maximum key.
    pub max_key: usize,
}

impl VecBitmap {
    /// The words of the backing array and the declared maximum key.
    pub(crate) fn into_parts(self) -> (r: (Vec<u64>, usize))
        ensures
            r.0@ == self.bitmap@,
            r.1 == self.max_key,
    {
        (self.bitmap, self.max_key)
    }
}

impl Bitmap for VecBitmap {
    open spec fn spec_max_key(&self) -> int {
        self.max_key as int
    }

    open spec fn spec_capacity(&self) -> int {
        64 * self.bitmap@.len() as int
    }

    open spec fn wf(&self) -> bool {
        self.bitmap@.len() == spec_num_blocks(self.max_key as int)
    }

    open spec fn spec_get(&self, key: int) -> bool {
        &&& 0 <= key < 64 * self.bitmap@.len()
        &&& nth_bit(self.bitmap@[key / 64], (key % 64) as u64)
    }

    fn new_with_capacity(max_key: usize) -> (r: Self) {
        let words = num_blocks_for(max_key);
        let bitmap = vec![0u64; words];
        let r = Self { bitmap, max_key };
        proof {
            assert forall|k: int| !r.spec_get(k) by {
                if 0 <= k < 64 * r.bitmap@.len() {
                    lemma_nth_bit_zero((k % 64) as u64);
                }
            }
        }
        r
    }

    fn set(&mut self, key: usize, value: bool) {
        let offset = index_for_key(key);
        proof {
            crate::bits::lemma_bit_index_in_seq(self.bitmap@, key as int);
        }
        let w = self.bitmap[offset];
        let mask = bitmask_for_key(key);
        let w2 = if value {
            w | mask
        } else {
            w & !mask
        };
        self.bitmap[offset] = w2;
        proof {
            let j = (key as int % 64) as u64;
            if value {
                lemma_bits_or_single(w, j);
            } else {
                lemma_bits_andnot_single(w, j);
            }
            assert(self.spec_get(key as int) == value);
            assert forall|k: int| k != key implies self.spec_get(k) == old(self).spec_get(k) by {
                if 0 <= k < 64 * self.bitmap@.len() {
                    if k / 64 == key as int / 64 {
                        assert(k % 64 != key as int % 64);
                    }
                }
            }
        }
    }

    fn get(&self, key: usize) -> (r: bool) {
        let offset = index_for_key(key);
        proof {
            crate::bits::lemma_bit_index_in_seq(self.bitmap@, key as int);
            lemma_mask_test(self.bitmap@[key as int / 64], (key as int % 64) as u64);
        }
        self.bitmap[offset] & bitmask_for_key(key) != 0
    }

    open spec fn spec_byte_floor(&self) -> int {
        8 * self.bitmap@.len() as int
    }

    fn byte_size(&self) -> (r: usize)
        ensures
            r == 8 * self.bitmap@.len(),
    {
        proof {
            let l = self.bitmap@.len() as int;
            assert(8 * l <= usize::MAX) by (nonlinear_arith)
                requires
                    0 <= l <= usize::MAX as int / 64 + 1,
                    usize::MAX >= 0xffff_ffff,
            ;
        }
        self.bitmap.len() * 8
    }

    fn or(&self, other: &Self) -> (r: Self) {
        let n = self.bitmap.len();
        let mut bitmap: Vec<u64> = Vec::new();
        let mut i: usize = 0;
        while i < n
            invariant
                i <= n,
                n == self.bitmap@.len(),
                n == other.bitmap@.len(),
                bitmap@.len() == i,
                forall|x: int| 0 <= x < i ==> bitmap@[x] == (self.bitmap@[x] | other.bitmap@[x]),
            decreases n - i,
        {
            bitmap.push(self.bitmap[i] | other.bitmap[i]);
            i = i + 1;
        }
        let r = Self { bitmap, max_key: self.max_key };
        proof {
            assert forall|k: int| r.spec_get(k) == (self.spec_get(k) || other.spec_get(k)) by {
                if 0 <= k < 64 * r.bitmap@.len() {
                    lemma_bits_or(self.bitmap@[k / 64], other.bitmap@[k / 64]);
                    crate::bits::lemma_bit_index_in_seq(r.bitmap@, k);
                }
            }
        }
        r
    }
}

} // verus!
