//! A flat bitmap that can be frozen into a raw byte buffer for zero-copy
//! persistence.

use vstd::prelude::*;

use crate::bits::lemma_bit_index_in_bytes;
use crate::bits::lemma_bits8_andnot_single;
use crate::bits::lemma_bits8_or;
use crate::bits::lemma_bits8_or_single;
use crate::bits::lemma_mask_test8;
use crate::bits::lemma_nth_bit8_zero;
use crate::bits::nth_bit8;
use crate::bloom::Bitmap;

use super::num_blocks_for;

verus! {

#[verifier::external_type_specification]
#[verifier::external_body]
pub struct ExBytes(bytes::Bytes);

/// The bytes held by a `bytes::Bytes` buffer.
pub uninterp spec fn bytes_view(b: bytes::Bytes) -> Seq<u8>;

/// Relies on `<bytes::Bytes as From<Vec<u8>>>::from`: the new `Bytes` holds
/// exactly the vector's bytes.
#[verifier::external_body]
fn bytes_from_vec(v: Vec<u8>) -> (r: bytes::Bytes)
    ensures
        bytes_view(r) == v@,
{
    bytes::Bytes::from(v)
}

/// Relies on `bytes::Bytes`'s `Deref<Target = [u8]>` and `slice::to_vec`:
/// the dereferenced slice is exactly the held bytes, copied out in order.
#[verifier::external_body]
fn bytes_to_vec(b: &bytes::Bytes) -> (r: Vec<u8>)
    ensures
        r@ == bytes_view(*b),
{
    b.as_ref().to_vec()
}

/// A plain, heap-allocated, `O(1)` indexed bitmap over a byte buffer.
///
/// This variant adds nothing algorithmically over [`VecBitmap`]: its only
/// purpose is zero-copy persistence. [`BytesBitmap::freeze`] hands the raw
/// buffer out as a [`bytes::Bytes`], and [`BytesBitmap::from_bytes`]
/// rebuilds an instance whose every `get` answers as the frozen one did.
///
/// Key `k` lives in byte `k / 8` at bit `k % 8`.
///
/// The fields are public so that specifications can speak about them;
/// callers that write them directly forfeit the contracts.
///
/// [`VecBitmap`]: crate::VecBitmap
#[derive(Debug, Clone, PartialEq, Eq)]
pub struct BytesBitmap {
    /// The declared maximum key.
    pub max_key: usize,
    /// The backing bytes.
    pub bitmap: Vec<u8>,
}

impl BytesBitmap {
    /// Consume the bitmap, handing out its raw byte buffer.
    pub fn freeze(self) -> (r: bytes::Bytes)
        ensures
            bytes_view(r) == self.bitmap@,
    {
        bytes_from_vec(self.bitmap)
    }

    /// The largest key this bitmap was declared for.
    pub fn max_key(&self) -> (r: usize)
        ensures
            r == self.max_key,
    {
        self.max_key
    }

    /// Rebuild a bitmap from a raw byte buffer, as handed out by
    /// [`BytesBitmap::freeze`]. Every byte backs eight keys, so the rebuilt
    /// maximum key is eight times the buffer length (saturating at
    /// `usize::MAX` for buffers too large for that product, which no real
    /// allocation reaches).
    pub fn from_bytes(bitmap: bytes::Bytes) -> (r: Self)
        ensures
            r.bitmap@ == bytes_view(bitmap),
            r.max_key == if bytes_view(bitmap).len() <= usize::MAX as int / 8 {
                8 * bytes_view(bitmap).len() as int
            } else {
                usize::MAX as int
            },
    {
        let v = bytes_to_vec(&bitmap);
        let max_key = if v.len() <= usize::MAX / 8 {
            v.len() * 8
        } else {
            usize::MAX
        };
        Self { max_key, bitmap: v }
    }
}

/// **A freeze / rebuild round trip is observably identical.** Two byte
/// bitmaps over the same buffer — as when one was rebuilt via
/// [`BytesBitmap::from_bytes`] from the other's [`BytesBitmap::freeze`]
/// output — answer every `get` alike.
pub proof fn lemma_frozen_round_trip(a: BytesBitmap, b: BytesBitmap)
    requires
        a.bitmap@ == b.bitmap@,
    ensures
        forall|k: int| a.spec_get(k) == b.spec_get(k),
{
}

impl Bitmap for BytesBitmap {
    open spec fn spec_max_key(&self) -> int {
        self.max_key as int
    }

    open spec fn spec_capacity(&self) -> int {
        8 * self.bitmap@.len() as int
    }

    open spec fn wf(&self) -> bool {
        true
    }

    open spec fn spec_get(&self, key: int) -> bool {
        &&& 0 <= key < 8 * self.bitmap@.len()
        &&& nth_bit8(self.bitmap@[key / 8], (key % 8) as u8)
    }

    fn new_with_capacity(max_key: usize) -> (r: Self) {
        let blocks = num_blocks_for(max_key);
        proof {
            super::lemma_block_map_words_fit(max_key as int);
            let m = usize::MAX as int;
            assert(8 * blocks <= m) by (nonlinear_arith)
                requires
                    0 <= blocks <= m / 64 + 1,
                    m >= 0xffff_ffff,
            ;
        }
        let size = blocks * 8;
        let bitmap = vec![0u8; size];
        let r = Self { max_key, bitmap };
        proof {
            assert forall|k: int| !r.spec_get(k) by {
                if 0 <= k < 8 * r.bitmap@.len() {
                    lemma_bit_index_in_bytes(r.bitmap@, k);
                    lemma_nth_bit8_zero((k % 8) as u8);
                }
            }
        }
        r
    }

    fn set(&mut self, key: usize, value: bool) {
        let offset = key / 8;
        proof {
            lemma_bit_index_in_bytes(self.bitmap@, key as int);
        }
        let w = self.bitmap[offset];
        let mask = 1u8 << ((key % 8) as u8);
        let w2 = if value {
            w | mask
        } else {
            w & !mask
        };
        self.bitmap[offset] = w2;
        proof {
            let j = ((key as int) % 8) as u8;
            if value {
                lemma_bits8_or_single(w, j);
            } else {
                lemma_bits8_andnot_single(w, j);
            }
            assert(self.spec_get(key as int) == value);
            assert forall|k: int| k != key implies self.spec_get(k) == old(self).spec_get(k) by {
                if 0 <= k < 8 * self.bitmap@.len() {
                    if k / 8 == key as int / 8 {
                        assert(k % 8 != key as int % 8);
                    }
                }
            }
        }
    }

    fn get(&self, key: usize) -> (r: bool) {
        let offset = key / 8;
        proof {
            lemma_bit_index_in_bytes(self.bitmap@, key as int);
            lemma_mask_test8(self.bitmap@[key as int / 8], ((key as int) % 8) as u8);
        }
        self.bitmap[offset] & (1u8 << ((key % 8) as u8)) != 0
    }

    open spec fn spec_byte_floor(&self) -> int {
        self.bitmap@.len() as int
    }

    fn byte_size(&self) -> (r: usize)
        ensures
            r == self.bitmap@.len(),
    {
        self.bitmap.len()
    }

    fn or(&self, other: &Self) -> (r: Self) {
        let n = self.bitmap.len();
        let mut bitmap: Vec<u8> = Vec::new();
        let mut i: usize = 0;
        while i < n
            invariant
                i <= n,
                n == self.bitmap@.len(),
                n == other.bitmap@.len(),
                bitmap@.len() == i,
                forall|x: int| 0 <= x < i ==> bitmap@[x] == (self.bitmap@[x] | other.bitmap@[x]),
            decreases n - i,
        {
            bitmap.push(self.bitmap[i] | other.bitmap[i]);
            i = i + 1;
        }
        let r = Self { max_key: self.max_key, bitmap };
        proof {
            assert forall|k: int| r.spec_get(k) == (self.spec_get(k) || other.spec_get(k)) by {
                if 0 <= k < 8 * r.bitmap@.len() {
                    lemma_bits8_or(self.bitmap@[k / 8], other.bitmap@[k / 8]);
                    lemma_bit_index_in_bytes(r.bitmap@, k);
                }
            }
        }
        r
    }
}

} // verus!
