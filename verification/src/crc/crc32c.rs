//! Table-driven CRC-32C with the reflected Castagnoli polynomial 0x82F63B78.
use vstd::prelude::*;

verus! {

/// One step of the bitwise CRC-32C division.
pub open spec fn crc32c_bit_step(value: u32) -> u32 {
    if (value & 1u32) != 0 {
        ((value >> 1u32) ^ 0x82F63B78u32) as u32
    } else {
        (value >> 1u32) as u32
    }
}

/// `n` steps of the bitwise CRC-32C division starting at `value`.
pub open spec fn crc32c_bit_steps(value: u32, n: nat) -> u32
    decreases n,
{
    if n == 0 {
        value
    } else {
        crc32c_bit_step(crc32c_bit_steps(value, (n - 1) as nat))
    }
}

/// The lookup-table entry for `byte`: eight division steps on it.
pub open spec fn crc32c_table_entry(byte: u8) -> u32 {
    crc32c_bit_steps(byte as u32, 8)
}

/// One byte of table-driven CRC-32C.
pub open spec fn crc32c_update(crc: u32, byte: u8) -> u32 {
    ((crc >> 8u32) ^ crc32c_table_entry(byte ^ ((crc & 0xffu32) as u8))) as u32
}

/// The CRC-32C register after feeding `data` into initial register `seed`.
pub open spec fn crc32c_raw(seed: u32, data: Seq<u8>) -> u32
    decreases data.len(),
{
    if data.len() == 0 {
        seed
    } else {
        crc32c_update(crc32c_raw(seed, data.drop_last()), data.last())
    }
}

/// Computes the lookup-table entry for `byte`.
pub fn generate_coefficient(byte: u8) -> (value: u32)
    ensures
        value == crc32c_table_entry(byte),
{
    let mut value: u32 = byte as u32;
    let mut i: u32 = 0;
    while i < 8
        invariant
            i <= 8,
            value == crc32c_bit_steps(byte as u32, i as nat),
        decreases 8 - i,
    {
        let ghost previous = value;
        if (0x1 & value) != 0 {
            value = value >> 1;
            value = value ^ 0x82F63B78;
        } else {
            value = value >> 1;
        }
        assert(value == crc32c_bit_step(previous)) by {
            assert((0x1 & previous) == (previous & 1)) by (bit_vector);
        }
        i = i + 1;
    }
    value
}

/// Builds the 256-entry lookup table.
pub fn generate_table() -> (table: Vec<u32>)
    ensures
        table@.len() == 256,
        forall|k: int| 0 <= k < 256 ==> #[trigger] table@[k] == crc32c_table_entry(k as u8),
{
    let mut table: Vec<u32> = Vec::new();
    let mut i: u32 = 0;
    while i < 256
        invariant
            i <= 256,
            table@.len() == i,
            forall|k: int| 0 <= k < i ==> #[trigger] table@[k] == crc32c_table_entry(k as u8),
        decreases 256 - i,
    {
        let c = generate_coefficient(i as u8);
        table.push(c);
        i = i + 1;
    }
    table
}

} // verus!
