//! A sparse, two-level bitmap and the bloom filter built on top of it.
//!
//! The [`Bloom2`] filter splits a caller-supplied fixed-width fingerprint
//! into several smaller keys and records each key in a bitmap backing. The
//! sparse backing, [`CompressedBitmap`], stores only the non-empty
//! machine words of the logical bit array, locating each stored word by a
//! rank (population count) query over a block map.

use vstd::prelude::*;

pub mod bits;
mod bitmap;
mod bloom;
pub mod compressed_bitmap;
mod filter_size;

pub use bitmap::BytesBitmap;
pub use bitmap::CompressedBitmap;
pub use bitmap::VecBitmap;
pub use bloom::Bitmap;
pub use bloom::Bloom2;
pub use bloom::BloomFilterBuilder;
pub use filter_size::FilterSize;
