//! CRC-16 (polynomial 0xA001, reflected) and CRC-32C (Castagnoli) checksums.
use vstd::prelude::*;

pub mod crc16;
pub mod crc32c;

use crate::crc::crc16::{crc16_bit_steps, crc16_spec, crc16_table_entry, crc16_update};
use crate::crc::crc32c::{crc32c_raw, crc32c_table_entry};

verus! {

/// CRC-16 of `data`, starting from `seed`.
pub fn crc16(seed: u16, data: &[u8]) -> (result: u16)
    ensures
        result == crc16_spec(seed, data@),
{
    let table = crc16::generate_table();
    let mut crc: u16 = seed;
    let mut i: usize = 0;
    while i < data.len()
        invariant
            i <= data.len(),
            table@.len() == 256,
            forall|k: int| 0 <= k < 256 ==> #[trigger] table@[k] == crc16_table_entry(k as u8),
            crc == crc16_spec(seed, data@.take(i as int)),
        decreases data.len() - i,
    {
        let byte = data[i];
        let index: u8 = byte ^ ((crc & 0xff) as u8);
        crc = (crc >> 8) ^ table[index as usize];
        assert(data@.take(i + 1).drop_last() =~= data@.take(i as int));
        i = i + 1;
    }
    assert(data@.take(data.len() as int) =~= data@);
    crc
}

/// Feeding a CRC-16 computation in two parts, using the checksum of the first
/// part as the seed of the second, gives the checksum of the whole.
pub proof fn lemma_crc16_chaining(seed: u16, first: Seq<u8>, second: Seq<u8>)
    ensures
        crc16_spec(crc16_spec(seed, first), second) == crc16_spec(seed, first + second),
    decreases second.len(),
{
    if second.len() == 0 {
        assert(first + second =~= first);
    } else {
        lemma_crc16_chaining(seed, first, second.drop_last());
        assert((first + second).drop_last() =~= first + second.drop_last());
        assert((first + second).last() == second.last());
    }
}

/// Dividing zero gives zero.
proof fn lemma_crc16_steps_zero(n: nat)
    ensures
        crc16_bit_steps(0, n) == 0,
    decreases n,
{
    if n > 0 {
        lemma_crc16_steps_zero((n - 1) as nat);
        assert((0u16 & 1u16) == 0u16 && (0u16 >> 1u16) == 0u16) by (bit_vector);
    }
}

/// Running the CRC-16 over some bytes followed by their own checksum, low
/// byte first, leaves a register of zero.
pub proof fn law_crc16_residue(seed: u16, data: Seq<u8>)
    ensures
        ({
            let c = crc16_spec(seed, data);
            crc16_spec(seed, data + seq![(c & 0xff) as u8, (c >> 8) as u8]) == 0
        }),
{
    let c = crc16_spec(seed, data);
    let lo = (c & 0xff) as u8;
    let hi = (c >> 8) as u8;
    let tail = seq![lo, hi];
    lemma_crc16_chaining(seed, data, tail);
    lemma_crc16_steps_zero(8);
    assert((lo ^ ((c & 0xffu16) as u8)) == 0u8 && ((c >> 8u16) ^ 0u16) == c >> 8u16 && (hi ^ (((c >> 8u16)
        & 0xffu16) as u8)) == 0u8 && (((c >> 8u16) >> 8u16) ^ 0u16) == 0u16) by (bit_vector)
        requires
            lo == (c & 0xff) as u8,
            hi == (c >> 8) as u8,
    ;
    assert(tail.drop_last() =~= seq![lo]);
    assert(seq![lo].drop_last() =~= Seq::<u8>::empty());
    assert(crc16_spec(c, Seq::<u8>::empty()) == c);
    assert(crc16_spec(c, seq![lo]) == crc16_update(crc16_spec(c, seq![lo].drop_last()), seq![lo].last()));
    assert(crc16_spec(c, seq![lo]) == crc16_update(c, lo));
    assert(crc16_update(c, lo) == c >> 8u16);
    assert(crc16_spec(c, tail) == crc16_update(c >> 8u16, hi));
}

/// Incremental CRC-32C computation.
pub struct Crc32C {
    current_value: u32,
}

impl Crc32C {
    /// The value of the running (not yet finalized) checksum register.
    pub closed spec fn state(&self) -> u32 {
        self.current_value
    }

    /// Initial register value.
    pub open spec fn initial_value() -> u32 {
        0xFFFF_FFFF
    }

    pub fn new() -> (crc: Self)
        ensures
            crc.state() == Self::initial_value(),
    {
        Self { current_value: 0xFFFF_FFFF }
    }

    /// Feeds `bytes` into the checksum.
    pub fn write(&mut self, bytes: &[u8])
        ensures
            final(self).state() == crc32c_raw(old(self).state(), bytes@),
    {
        let table = crc32c::generate_table();
        let ghost start = self.current_value;
        let mut i: usize = 0;
        while i < bytes.len()
            invariant
                i <= bytes.len(),
                table@.len() == 256,
                forall|k: int| 0 <= k < 256 ==> #[trigger] table@[k] == crc32c_table_entry(k as u8),
                self.current_value == crc32c_raw(start, bytes@.take(i as int)),
            decreases bytes.len() - i,
        {
            let byte = bytes[i];
            let index: u8 = byte ^ ((self.current_value & 0xff) as u8);
            self.current_value = (self.current_value >> 8) ^ table[index as usize];
            assert(bytes@.take(i + 1).drop_last() =~= bytes@.take(i as int));
            i = i + 1;
        }
        assert(bytes@.take(bytes.len() as int) =~= bytes@);
    }

    /// The finalized checksum of everything written so far.
    pub fn finish(&self) -> (value: u32)
        ensures
            value == self.state() ^ 0xFFFF_FFFFu32,
    {
        self.current_value ^ 0xFFFF_FFFF
    }
}

/// The CRC-32C checksum of `data`.
pub open spec fn crc32c_spec(data: Seq<u8>) -> u32 {
    crc32c_raw(0xFFFF_FFFF, data) ^ 0xFFFF_FFFFu32
}

/// CRC-32C of `data`.
pub fn crc32c(data: &[u8]) -> (value: u32)
    ensures
        value == crc32c_spec(data@),
{
    let mut crc = Crc32C::new();
    crc.write(data);
    crc.finish()
}

/// Writing two byte sequences one after the other into a CRC-32C register has
/// the same effect as writing their concatenation at once.
pub proof fn lemma_crc32c_write_concat(state: u32, first: Seq<u8>, second: Seq<u8>)
    ensures
        crc32c_raw(crc32c_raw(state, first), second) == crc32c_raw(state, first + second),
    decreases second.len(),
{
    if second.len() == 0 {
        assert(first + second =~= first);
    } else {
        lemma_crc32c_write_concat(state, first, second.drop_last());
        assert((first + second).drop_last() =~= first + second.drop_last());
        assert((first + second).last() == second.last());
    }
}

/// The register after writing each of `chunks`, in order, from `state`.
pub open spec fn crc32c_writes(state: u32, chunks: Seq<Seq<u8>>) -> u32
    decreases chunks.len(),
{
    if chunks.len() == 0 {
        state
    } else {
        crc32c_raw(crc32c_writes(state, chunks.drop_last()), chunks.last())
    }
}

/// The bytes of `chunks` back to back.
pub open spec fn concat_chunks(chunks: Seq<Seq<u8>>) -> Seq<u8>
    decreases chunks.len(),
{
    if chunks.len() == 0 {
        Seq::empty()
    } else {
        concat_chunks(chunks.drop_last()) + chunks.last()
    }
}

/// Writing any number of chunks into a CRC-32C register, one call each,
/// gives the register that writing all their bytes at once gives; a fresh
/// register then finishes with the CRC-32C of the bytes.
pub proof fn law_writes_concatenate(state: u32, chunks: Seq<Seq<u8>>)
    ensures
        crc32c_writes(state, chunks) == crc32c_raw(state, concat_chunks(chunks)),
        crc32c_writes(Crc32C::initial_value(), chunks) ^ 0xFFFF_FFFFu32 == crc32c_spec(
            concat_chunks(chunks),
        ),
    decreases chunks.len(),
{
    if chunks.len() == 0 {
        assert(crc32c_raw(state, Seq::<u8>::empty()) == state);
        assert(crc32c_raw(Crc32C::initial_value(), Seq::<u8>::empty()) == Crc32C::initial_value());
    } else {
        law_writes_concatenate(state, chunks.drop_last());
        law_writes_concatenate(Crc32C::initial_value(), chunks.drop_last());
        lemma_crc32c_write_concat(state, concat_chunks(chunks.drop_last()), chunks.last());
        lemma_crc32c_write_concat(Crc32C::initial_value(), concat_chunks(chunks.drop_last()), chunks.last());
    }
}

} // verus!
