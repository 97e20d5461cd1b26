use p1c0_kernel::crc::crc16::generate_table;
use p1c0_kernel::crc::{crc16, crc32c, Crc32C};
use p1c0_kernel::hash::CrcHasher;

#[test]
fn test_generated_table() {
    let table = generate_table();
    assert_eq!(table[0], 0);
    assert_eq!(table[1], 0xC0C1);
    assert_eq!(table[2], 0xC181);
    assert_eq!(table[3], 0x0140);
    assert_eq!(table[255], 0x4040);
}

#[test]
fn test_crc16() {
    assert_eq!(crc16(0, &[0, 1, 2, 3, 4, 5, 6, 7, 8, 9, 10, 11]), 0x96c5);

    assert_eq!(
        crc16(0, &[0, 1, 2, 3, 4, 5, 6, 7, 8, 9, 10, 11, 0xc5, 0x96]),
        0x0
    );
}

#[test]
fn test_crc16_with_seed() {
    let initial = crc16(0, &[0, 1, 2]);
    let final_val = crc16(initial, &[3, 4, 5, 6, 7, 8, 9, 10, 11]);
    assert_eq!(final_val, 0x96c5);

    assert_eq!(
        crc16(
            final_val,
            &[(final_val & 0xff) as u8, (final_val >> 8) as u8]
        ),
        0
    );
}

#[test]
fn test_crc32c() {
    assert_eq!(crc32c(&[0x00]), 0x527D5351);
    assert_eq!(crc32c(&[0x00, 0x01, 0x02, 0xA5]), 0x5DD948ED);
    assert_eq!(crc32c(&[0x12, 0x23, 0x4F, 0xFF]), 0xA01D7DB4);
}

#[test]
fn crc16_of_nothing_is_the_seed() {
    assert_eq!(crc16(0x1234, &[]), 0x1234);
}

#[test]
fn crc16_chains_over_split_input() {
    let data = [9u8, 8, 7, 6, 5, 4, 3, 2, 1];
    let whole = crc16(0xffff, &data);
    let part = crc16(0xffff, &data[0..4]);
    assert_eq!(crc16(part, &data[4..9]), whole);
}

#[test]
fn crc32c_writes_concatenate() {
    let mut split = Crc32C::new();
    split.write(&[0x00, 0x01]);
    split.write(&[0x02, 0xA5]);
    assert_eq!(split.finish(), 0x5DD948ED);
}

#[test]
fn crc32c_of_nothing() {
    let crc = Crc32C::new();
    assert_eq!(crc.finish(), 0);
    assert_eq!(crc32c(&[]), 0);
}

#[test]
fn crc_hasher_digest_is_crc32c() {
    let mut hasher = CrcHasher::default();
    hasher.write(&[0x12, 0x23, 0x4F, 0xFF]);
    assert_eq!(hasher.finish(), 0xA01D7DB4);
}

#[test]
fn crc32c_written_in_pieces_equals_one_write() {
    let mut c = Crc32C::new();
    c.write(b"12");
    c.write(b"");
    c.write(b"3456");
    c.write(b"789");
    assert_eq!(c.finish(), 0xE306_9283);
    assert_eq!(c.finish(), crc32c(b"123456789"));
}

#[test]
fn crc16_of_data_followed_by_its_checksum_is_zero() {
    for seed in [0u16, 0xffff, 0x1234] {
        let data = b"123456789";
        let c = crc16(seed, data);
        let tail = [(c & 0xff) as u8, (c >> 8) as u8];
        assert_eq!(crc16(c, &tail), 0);
        let mut all = data.to_vec();
        all.extend_from_slice(&tail);
        assert_eq!(crc16(seed, &all), 0);
    }
}
