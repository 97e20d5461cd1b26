//! A small, non-cryptographic hasher built on CRC-32C.
use vstd::prelude::*;

use crate::crc::crc32c::crc32c_raw;
use crate::crc::Crc32C;

verus! {

/// Hasher whose digest is the CRC-32C of everything written into it.
pub struct CrcHasher {
    crc32c: Crc32C,
}

impl CrcHasher {
    /// The running CRC-32C register of the hasher.
    pub closed spec fn state(&self) -> u32 {
        self.crc32c.state()
    }

    /// Feeds `bytes` into the hasher.
    pub fn write(&mut self, bytes: &[u8])
        ensures
            final(self).state() == crc32c_raw(old(self).state(), bytes@),
    {
        self.crc32c.write(bytes);
    }

    /// The digest: the finalized CRC-32C, zero-extended to 64 bits.
    pub fn finish(&self) -> (digest: u64)
        ensures
            digest == (self.state() ^ 0xFFFF_FFFFu32) as u64,
    {
        self.crc32c.finish() as u64
    }
}

impl Default for CrcHasher {
    fn default() -> (hasher: Self)
        ensures
            hasher.state() == Crc32C::initial_value(),
    {
        CrcHasher { crc32c: Crc32C::new() }
    }
}

} // verus!
