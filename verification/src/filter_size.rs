//! The key-width configuration of a [`Bloom2`](crate::Bloom2) filter.

use vstd::prelude::*;

verus! {

/// `FilterSize` bounds the allocated size and false-positive rate of a
/// [`Bloom2`](crate::Bloom2) instance.
///
/// The variant fixes the width in bytes of each key split from a
/// fingerprint, and with it two things at once: the addressable key space
/// (`2^(8 * width)` keys — hence the memory ceiling of a fully populated
/// backing) and the number of keys `k` derived from one fingerprint of a
/// given width (`k = fingerprint bytes / key bytes`, rounded up). Larger
/// widths reduce false-positive growth per insert but increase the filter's
/// memory ceiling and reduce `k` for a fixed fingerprint size.
#[derive(Clone, Copy, Debug, PartialEq, Eq, Structural)]
pub enum FilterSize {
    /// 1 byte / 8 bits per key: 256 addressable keys, at most ~40 bytes of
    /// backing memory. False positives grow very quickly; with a 64-bit
    /// fingerprint each insert touches 8 positions.
    KeyBytes1,
    /// 2 bytes / 16 bits per key: 65,536 addressable keys, at most ~8 KiB of
    /// backing memory; with a 64-bit fingerprint each insert touches 4
    /// positions.
    KeyBytes2,
    /// 3 bytes / 24 bits per key: ~16.8 million addressable keys, at most
    /// ~2 MiB of backing memory; with a 64-bit fingerprint each insert
    /// touches 3 positions.
    KeyBytes3,
    /// 4 bytes / 32 bits per key: ~4.3 billion addressable keys, at most
    /// ~540 MiB of backing memory; with a 64-bit fingerprint each insert
    /// touches 2 positions.
    KeyBytes4,
    /// 5 bytes / 40 bits per key: ~1.1 trillion addressable keys, at most
    /// ~140 GiB of backing memory; with a 64-bit fingerprint each insert
    /// touches 2 positions (one 5-byte key and one 3-byte key).
    KeyBytes5,
}

impl FilterSize {
    /// The key width in bytes.
    pub open spec fn spec_key_bytes(self) -> int {
        match self {
            FilterSize::KeyBytes1 => 1,
            FilterSize::KeyBytes2 => 2,
            FilterSize::KeyBytes3 => 3,
            FilterSize::KeyBytes4 => 4,
            FilterSize::KeyBytes5 => 5,
        }
    }

    /// The number of distinct keys a key of this width can address:
    /// `2^(8 * width)`.
    pub open spec fn spec_key_space(self) -> int {
        match self {
            FilterSize::KeyBytes1 => 0x100,
            FilterSize::KeyBytes2 => 0x1_0000,
            FilterSize::KeyBytes3 => 0x100_0000,
            FilterSize::KeyBytes4 => 0x1_0000_0000,
            FilterSize::KeyBytes5 => 0x100_0000_0000,
        }
    }

    /// The key width in bytes.
    pub fn key_bytes(self) -> (r: usize)
        ensures
            r == self.spec_key_bytes(),
    {
        match self {
            FilterSize::KeyBytes1 => 1,
            FilterSize::KeyBytes2 => 2,
            FilterSize::KeyBytes3 => 3,
            FilterSize::KeyBytes4 => 4,
            FilterSize::KeyBytes5 => 5,
        }
    }
}

} // verus!
