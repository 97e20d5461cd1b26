//! Table-driven CRC-16 with the reflected polynomial 0xA001.
use vstd::prelude::*;

verus! {

/// One step of the bitwise CRC-16 division.
pub open spec fn crc16_bit_step(value: u16) -> u16 {
    if (value & 1u16) != 0 {
        ((value >> 1u16) ^ 0xA001u16) as u16
    } else {
        (value >> 1u16) as u16
    }
}

/// `n` steps of the bitwise CRC-16 division starting at `value`.
pub open spec fn crc16_bit_steps(value: u16, n: nat) -> u16
    decreases n,
{
    if n == 0 {
        value
    } else {
        crc16_bit_step(crc16_bit_steps(value, (n - 1) as nat))
    }
}

/// The lookup-table entry for `byte`: eight division steps on it.
pub open spec fn crc16_table_entry(byte: u8) -> u16 {
    crc16_bit_steps(byte as u16, 8)
}

/// One byte of table-driven CRC-16.
pub open spec fn crc16_update(crc: u16, byte: u8) -> u16 {
    ((crc >> 8u16) ^ crc16_table_entry(byte ^ ((crc & 0xffu16) as u8))) as u16
}

/// The CRC-16 of `data` with initial register `seed`.
pub open spec fn crc16_spec(seed: u16, data: Seq<u8>) -> u16
    decreases data.len(),
{
    if data.len() == 0 {
        seed
    } else {
        crc16_update(crc16_spec(seed, data.drop_last()), data.last())
    }
}

/// Computes the lookup-table entry for `byte`.
pub fn generate_coefficient(byte: u8) -> (value: u16)
    ensures
        value == crc16_table_entry(byte),
{
    let mut value: u16 = byte as u16;
    let mut i: u32 = 0;
    while i < 8
        invariant
            i <= 8,
            value == crc16_bit_steps(byte as u16, i as nat),
        decreases 8 - i,
    {
        let ghost previous = value;
        if (0x1 & value) != 0 {
            value = value >> 1;
            value = value ^ 0xA001;
        } else {
            value = value >> 1;
        }
        assert(value == crc16_bit_step(previous)) by {
            assert((0x1 & previous) == (previous & 1)) by (bit_vector);
        }
        i = i + 1;
    }
    value
}

/// Builds the 256-entry lookup table.
pub fn generate_table() -> (table: Vec<u16>)
    ensures
        table@.len() == 256,
        forall|k: int| 0 <= k < 256 ==> #[trigger] table@[k] == crc16_table_entry(k as u8),
{
    let mut table: Vec<u16> = Vec::new();
    let mut i: u32 = 0;
    while i < 256
        invariant
            i <= 256,
            table@.len() == i,
            forall|k: int| 0 <= k < i ==> #[trigger] table@[k] == crc16_table_entry(k as u8),
        decreases 256 - i,
    {
        let c = generate_coefficient(i as u8);
        table.push(c);
        i = i + 1;
    }
    table
}

} // verus!
