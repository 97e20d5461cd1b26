//! Parser for entries of a "newc" cpio archive (magic `070701`).
use vstd::prelude::*;

use crate::strings::{from_utf8, str_eq, strip_prefix_char, strip_prefix_str};
use vstd::utf8::{decode_utf8, valid_utf8};

verus! {

#[derive(Debug)]
pub enum Error {
    HeaderTooSmall,
    InvalidMagic,
    CouldNotParse,
}

/// Size of the fixed part of an entry header.
pub const HEADER_SIZE_BYTES: usize = 110;

/// One parsed archive entry.
#[derive(Debug)]
pub struct CpioHeader<'a> {
    pub inode: u32,
    pub mode: u32,
    pub uid: u32,
    pub gid: u32,
    pub nlink: u32,
    pub mtime: u32,
    pub filesize: u32,
    pub dev_major: u32,
    pub dev_minor: u32,
    pub rdev_major: u32,
    pub rdev_minor: u32,
    pub namesize: u32,
    pub name: &'a str,
    pub data_offset: usize,
    pub next_entry_offset: usize,
}

pub const INODE: usize = 6;
pub const MODE: usize = 14;
pub const UID: usize = 22;
pub const GID: usize = 30;
pub const NLINK: usize = 38;
pub const MTIME: usize = 46;
pub const FILESIZE: usize = 54;
pub const DEV_MAJOR: usize = 62;
pub const DEV_MINOR: usize = 70;
pub const RDEV_MAJOR: usize = 78;
pub const RDEV_MINOR: usize = 86;
pub const NAMESIZE: usize = 94;
pub const CHECK: usize = 102;

/// The value of a hexadecimal digit (either case).
pub open spec fn hex_digit_value(c: u8) -> Option<u32> {
    if 0x30 <= c <= 0x39 {
        Some((c - 0x30) as u32)
    } else if 0x61 <= c <= 0x66 {
        Some((c - 0x61 + 10) as u32)
    } else if 0x41 <= c <= 0x46 {
        Some((c - 0x41 + 10) as u32)
    } else {
        None
    }
}

/// The number written by a string of hexadecimal digits, most significant first.
pub open spec fn hex_value(s: Seq<u8>) -> nat
    decreases s.len(),
{
    if s.len() == 0 {
        0
    } else {
        16 * hex_value(s.drop_last()) + hex_digit_value(s.last()).unwrap() as nat
    }
}

pub open spec fn all_hex_digits(s: Seq<u8>) -> bool {
    forall|i: int| 0 <= i < s.len() ==> #[trigger] hex_digit_value(s[i]) is Some
}

/// Eight hexadecimal digits parsed as a 32-bit value.
pub open spec fn parse_hex32_spec(s: Seq<u8>) -> Option<u32> {
    if s.len() == 8 && all_hex_digits(s) {
        Some(hex_value(s) as u32)
    } else {
        None
    }
}

spec fn pow16(n: nat) -> nat
    decreases n,
{
    if n == 0 {
        1
    } else {
        16 * pow16((n - 1) as nat)
    }
}

proof fn lemma_hex_value_bound(s: Seq<u8>)
    requires
        all_hex_digits(s),
    ensures
        hex_value(s) < pow16(s.len()),
    decreases s.len(),
{
    if s.len() > 0 {
        assert(hex_digit_value(s[s.len() - 1]) is Some);
        lemma_hex_value_bound(s.drop_last());
    }
}

proof fn lemma_shift_is_mul(v: u32)
    requires
        v < 0x1000_0000,
    ensures
        v << 4u32 == v * 16,
{
    assert(v << 4u32 == v * 16) by (bit_vector)
        requires
            v < 0x1000_0000u32,
    ;
}

fn parse_hex32(data: &[u8]) -> (result: Result<u32, Error>)
    ensures
        match parse_hex32_spec(data@) {
            Some(v) => result matches Ok(r) && r == v,
            None => result matches Err(Error::CouldNotParse),
        },
{
    if data.len() != 8 {
        return Err(Error::CouldNotParse);
    }
    let mut value: u32 = 0;
    let mut i: usize = 0;
    while i < data.len()
        invariant
            data@.len() == 8,
            i <= 8,
            all_hex_digits(data@.take(i as int)),
            value == hex_value(data@.take(i as int)),
            value < pow16(i as nat),
        decreases 8 - i,
    {
        let nibble_char = data[i];
        let nibble: u8 = if (nibble_char >= 0x30) && (nibble_char <= 0x39) {
            nibble_char - 0x30
        } else if (nibble_char >= 0x61) && (nibble_char <= 0x66) {
            nibble_char - 0x61 + 10
        } else if (nibble_char >= 0x41) && (nibble_char <= 0x46) {
            nibble_char - 0x41 + 10
        } else {
            proof {
                assert(hex_digit_value(data@[i as int]) is None);
                assert(!all_hex_digits(data@));
            }
            return Err(Error::CouldNotParse);
        };
        proof {
            assert(pow16(7) == 0x1000_0000) by {
                reveal_with_fuel(pow16, 8);
            }
            assert(pow16(i as nat) <= pow16(7)) by {
                lemma_pow16_mono(i as nat, 7);
            }
            lemma_shift_is_mul(value);
            let t = data@.take(i + 1);
            assert(t.drop_last() =~= data@.take(i as int));
            assert(t.last() == nibble_char);
            assert forall|j: int| 0 <= j < t.len() implies #[trigger] hex_digit_value(t[j]) is Some by {
                if j < i {
                    assert(data@.take(i as int)[j] == t[j]);
                }
            }
        }
        value = (value << 4) + nibble as u32;
        i = i + 1;
    }
    assert(data@.take(8) =~= data@);
    Ok(value)
}

proof fn lemma_pow16_mono(a: nat, b: nat)
    requires
        a <= b,
    ensures
        pow16(a) <= pow16(b),
    decreases b,
{
    if a < b {
        lemma_pow16_mono(a, (b - 1) as nat);
    }
}

/// `c` with an upper-case ASCII letter turned to lower case.
pub open spec fn ascii_lower(c: u8) -> u8 {
    if 0x41 <= c <= 0x5A {
        (c + 0x20) as u8
    } else {
        c
    }
}

/// `s` with its upper-case ASCII letters turned to lower case.
pub open spec fn ascii_lowercase(s: Seq<u8>) -> Seq<u8> {
    s.map_values(|c: u8| ascii_lower(c))
}

proof fn lemma_hex_value_ignores_case(s: Seq<u8>)
    ensures
        all_hex_digits(ascii_lowercase(s)) == all_hex_digits(s),
        all_hex_digits(s) ==> hex_value(ascii_lowercase(s)) == hex_value(s),
    decreases s.len(),
{
    let l = ascii_lowercase(s);
    assert forall|i: int| 0 <= i < s.len() implies #[trigger] hex_digit_value(l[i]) == hex_digit_value(s[i]) by {
        assert(l[i] == ascii_lower(s[i]));
    }
    if !all_hex_digits(s) {
        let i = choose|i: int| 0 <= i < s.len() && !(#[trigger] hex_digit_value(s[i]) is Some);
        assert(hex_digit_value(l[i]) == hex_digit_value(s[i]));
    }
    if s.len() > 0 {
        assert(l.drop_last() =~= ascii_lowercase(s.drop_last()));
        lemma_hex_value_ignores_case(s.drop_last());
        assert(l.last() == l[s.len() - 1]);
        if all_hex_digits(s) {
            assert forall|i: int| 0 <= i < s.drop_last().len() implies #[trigger] hex_digit_value(s.drop_last()[i]) is Some by {
                assert(s.drop_last()[i] == s[i]);
            }
        }
    }
}

/// Hexadecimal header fields read the same whatever the case of their
/// letters: `A`..`F` are worth what `a`..`f` are, so "0000001A" and
/// "0000001a" both give 26.
pub proof fn law_hex_fields_ignore_case(s: Seq<u8>)
    ensures
        parse_hex32_spec(ascii_lowercase(s)) == parse_hex32_spec(s),
{
    lemma_hex_value_ignores_case(s);
}

/// A hexadecimal digit is worth its place among `0`..`9` followed by
/// `a`..`f`, and an upper-case letter what its lower-case letter is worth.
pub proof fn law_hex_digits(c: u8)
    ensures
        0x30 <= c <= 0x39 ==> hex_digit_value(c) == Some((c - 0x30) as u32),
        0x61 <= c <= 0x66 ==> hex_digit_value(c) == Some((c - 0x57) as u32),
        0x41 <= c <= 0x46 ==> hex_digit_value(c) == hex_digit_value((c + 0x20) as u8),
        hex_digit_value(c) is Some <==> (0x30 <= c <= 0x39 || 0x61 <= c <= 0x66 || 0x41 <= c <= 0x46),
{
}

/// The header field at `offset`.
pub open spec fn cpio_field(data: Seq<u8>, offset: int) -> Option<u32> {
    parse_hex32_spec(data.subrange(offset, offset + 8))
}

/// `x` rounded up to a multiple of four.
pub open spec fn align4(x: int) -> int {
    ((x + 3) / 4) * 4
}

pub open spec fn cpio_magic_ok(data: Seq<u8>) -> bool {
    data.subrange(0, 6) == seq![0x30u8, 0x37u8, 0x30u8, 0x37u8, 0x30u8, 0x31u8]
}

/// The header is long enough, carries the magic, a zero check field and
/// parseable name and file sizes.
pub open spec fn cpio_sizes_parse(data: Seq<u8>) -> bool {
    &&& data.len() >= HEADER_SIZE_BYTES
    &&& cpio_magic_ok(data)
    &&& cpio_field(data, CHECK as int) == Some(0u32)
    &&& cpio_field(data, NAMESIZE as int) is Some
    &&& cpio_field(data, FILESIZE as int) is Some
}

pub open spec fn cpio_namesize(data: Seq<u8>) -> int {
    cpio_field(data, NAMESIZE as int).unwrap() as int
}

/// Inputs on which parsing does not run past the data: a header whose sizes
/// parse names at least its terminator and fits the name in the data.
pub open spec fn cpio_entry_in_bounds(data: Seq<u8>) -> bool {
    cpio_sizes_parse(data) ==> 1 <= cpio_namesize(data) && HEADER_SIZE_BYTES + cpio_namesize(
        data,
    ) - 1 <= data.len() && HEADER_SIZE_BYTES + cpio_namesize(data) + cpio_field(
        data,
        FILESIZE as int,
    ).unwrap() + 6 <= usize::MAX
}

/// The bytes of the entry name, without its terminator.
pub open spec fn cpio_name_bytes(data: Seq<u8>) -> Seq<u8> {
    data.subrange(HEADER_SIZE_BYTES as int, HEADER_SIZE_BYTES + cpio_namesize(data) - 1)
}

/// All remaining fields parse and the name is valid UTF-8.
pub open spec fn cpio_rest_parses(data: Seq<u8>) -> bool {
    &&& valid_utf8(cpio_name_bytes(data))
    &&& cpio_field(data, INODE as int) is Some
    &&& cpio_field(data, MODE as int) is Some
    &&& cpio_field(data, UID as int) is Some
    &&& cpio_field(data, GID as int) is Some
    &&& cpio_field(data, NLINK as int) is Some
    &&& cpio_field(data, MTIME as int) is Some
    &&& cpio_field(data, DEV_MAJOR as int) is Some
    &&& cpio_field(data, DEV_MINOR as int) is Some
    &&& cpio_field(data, RDEV_MAJOR as int) is Some
    &&& cpio_field(data, RDEV_MINOR as int) is Some
}

/// A name with one leading `./` and then one leading `/` removed.
pub open spec fn strip_name(name: Seq<char>) -> Seq<char> {
    let s1 = if name.len() >= 2 && name[0] == '.' && name[1] == '/' {
        name.skip(2)
    } else {
        name
    };
    if s1.len() > 0 && s1[0] == '/' {
        s1.skip(1)
    } else {
        s1
    }
}

/// The entry name as reported.
pub open spec fn cpio_name(data: Seq<u8>) -> Seq<char> {
    strip_name(decode_utf8(cpio_name_bytes(data)))
}

/// Name of the entry that ends an archive.
pub open spec fn trailer_name() -> Seq<char> {
    seq!['T', 'R', 'A', 'I', 'L', 'E', 'R', '!', '!', '!']
}

/// The header parsed from `data`, which is well formed.
pub open spec fn header_matches(header: CpioHeader, data: Seq<u8>) -> bool {
    let namesize = cpio_namesize(data);
    let filesize = cpio_field(data, FILESIZE as int).unwrap() as int;
    &&& header.inode == cpio_field(data, INODE as int).unwrap()
    &&& header.mode == cpio_field(data, MODE as int).unwrap()
    &&& header.uid == cpio_field(data, UID as int).unwrap()
    &&& header.gid == cpio_field(data, GID as int).unwrap()
    &&& header.nlink == cpio_field(data, NLINK as int).unwrap()
    &&& header.mtime == cpio_field(data, MTIME as int).unwrap()
    &&& header.filesize == filesize
    &&& header.dev_major == cpio_field(data, DEV_MAJOR as int).unwrap()
    &&& header.dev_minor == cpio_field(data, DEV_MINOR as int).unwrap()
    &&& header.rdev_major == cpio_field(data, RDEV_MAJOR as int).unwrap()
    &&& header.rdev_minor == cpio_field(data, RDEV_MINOR as int).unwrap()
    &&& header.namesize == namesize
    &&& header.name@ == cpio_name(data)
    &&& header.data_offset == align4(HEADER_SIZE_BYTES + namesize)
    &&& header.next_entry_offset == align4(header.data_offset + filesize)
}

proof fn lemma_align4(x: usize)
    requires
        x <= usize::MAX - 3,
    ensures
        ((x + 3) as usize) & !3usize == align4(x as int),
{
    let y = (x + 3) as usize;
    assert(y & !3usize == y - y % 4) by (bit_vector);
}

fn field(data: &[u8], offset: usize) -> (result: Result<u32, Error>)
    requires
        offset <= CHECK,
        offset + 8 <= data@.len(),
    ensures
        match cpio_field(data@, offset as int) {
            Some(v) => result matches Ok(r) && r == v,
            None => result matches Err(Error::CouldNotParse),
        },
{
    let slice = &data[offset..offset + 8];
    assert(slice@ == data@.subrange(offset as int, offset + 8));
    parse_hex32(slice)
}

/// Checks length, magic and check field; returns the name and file sizes.
fn parse_sizes(data: &[u8]) -> (result: Result<(u32, u32), Error>)
    ensures
        data@.len() < HEADER_SIZE_BYTES ==> result matches Err(Error::HeaderTooSmall),
        data@.len() >= HEADER_SIZE_BYTES && !cpio_magic_ok(data@) ==> result matches Err(
            Error::InvalidMagic,
        ),
        data@.len() >= HEADER_SIZE_BYTES && cpio_magic_ok(data@) && !cpio_sizes_parse(data@)
            ==> result matches Err(Error::CouldNotParse),
        cpio_sizes_parse(data@) ==> (result matches Ok((namesize, filesize)) && namesize
            == cpio_field(data@, NAMESIZE as int).unwrap() && filesize == cpio_field(
            data@,
            FILESIZE as int,
        ).unwrap()),
{
    if data.len() < HEADER_SIZE_BYTES {
        return Err(Error::HeaderTooSmall);
    }
    let magic_data = &data[0..6];
    assert(magic_data@ == data@.subrange(0, 6));
    if !(magic_data[0] == 0x30 && magic_data[1] == 0x37 && magic_data[2] == 0x30 && magic_data[3]
        == 0x37 && magic_data[4] == 0x30 && magic_data[5] == 0x31) {
        proof {
            if cpio_magic_ok(data@) {
                assert(magic_data@[0] == 0x30 && magic_data@[1] == 0x37);
            }
        }
        return Err(Error::InvalidMagic);
    }
    assert(magic_data@ =~= seq![0x30u8, 0x37u8, 0x30u8, 0x37u8, 0x30u8, 0x31u8]);
    let check = match field(data, CHECK) {
        Ok(v) => v,
        Err(e) => {
            return Err(e);
        },
    };
    if check != 0 {
        return Err(Error::CouldNotParse);
    }
    let namesize = match field(data, NAMESIZE) {
        Ok(v) => v,
        Err(e) => {
            return Err(e);
        },
    };
    let filesize = match field(data, FILESIZE) {
        Ok(v) => v,
        Err(e) => {
            return Err(e);
        },
    };
    Ok((namesize, filesize))
}

/// The header fields other than the sizes.
struct RecordFields {
    inode: u32,
    mode: u32,
    uid: u32,
    gid: u32,
    nlink: u32,
    mtime: u32,
    dev_major: u32,
    dev_minor: u32,
    rdev_major: u32,
    rdev_minor: u32,
}

spec fn other_fields_parse(data: Seq<u8>) -> bool {
    &&& cpio_field(data, INODE as int) is Some
    &&& cpio_field(data, MODE as int) is Some
    &&& cpio_field(data, UID as int) is Some
    &&& cpio_field(data, GID as int) is Some
    &&& cpio_field(data, NLINK as int) is Some
    &&& cpio_field(data, MTIME as int) is Some
    &&& cpio_field(data, DEV_MAJOR as int) is Some
    &&& cpio_field(data, DEV_MINOR as int) is Some
    &&& cpio_field(data, RDEV_MAJOR as int) is Some
    &&& cpio_field(data, RDEV_MINOR as int) is Some
}

fn parse_other_fields(data: &[u8]) -> (result: Result<RecordFields, Error>)
    requires
        data@.len() >= HEADER_SIZE_BYTES,
    ensures
        !other_fields_parse(data@) ==> result matches Err(Error::CouldNotParse),
        other_fields_parse(data@) ==> (result matches Ok(f) && {
            &&& f.inode == cpio_field(data@, INODE as int).unwrap()
            &&& f.mode == cpio_field(data@, MODE as int).unwrap()
            &&& f.uid == cpio_field(data@, UID as int).unwrap()
            &&& f.gid == cpio_field(data@, GID as int).unwrap()
            &&& f.nlink == cpio_field(data@, NLINK as int).unwrap()
            &&& f.mtime == cpio_field(data@, MTIME as int).unwrap()
            &&& f.dev_major == cpio_field(data@, DEV_MAJOR as int).unwrap()
            &&& f.dev_minor == cpio_field(data@, DEV_MINOR as int).unwrap()
            &&& f.rdev_major == cpio_field(data@, RDEV_MAJOR as int).unwrap()
            &&& f.rdev_minor == cpio_field(data@, RDEV_MINOR as int).unwrap()
        }),
{
    let inode = match field(data, INODE) {
        Ok(v) => v,
        Err(e) => {
            return Err(e);
        },
    };
    let mode = match field(data, MODE) {
        Ok(v) => v,
        Err(e) => {
            return Err(e);
        },
    };
    let uid = match field(data, UID) {
        Ok(v) => v,
        Err(e) => {
            return Err(e);
        },
    };
    let gid = match field(data, GID) {
        Ok(v) => v,
        Err(e) => {
            return Err(e);
        },
    };
    let nlink = match field(data, NLINK) {
        Ok(v) => v,
        Err(e) => {
            return Err(e);
        },
    };
    let mtime = match field(data, MTIME) {
        Ok(v) => v,
        Err(e) => {
            return Err(e);
        },
    };
    let dev_major = match field(data, DEV_MAJOR) {
        Ok(v) => v,
        Err(e) => {
            return Err(e);
        },
    };
    let dev_minor = match field(data, DEV_MINOR) {
        Ok(v) => v,
        Err(e) => {
            return Err(e);
        },
    };
    let rdev_major = match field(data, RDEV_MAJOR) {
        Ok(v) => v,
        Err(e) => {
            return Err(e);
        },
    };
    let rdev_minor = match field(data, RDEV_MINOR) {
        Ok(v) => v,
        Err(e) => {
            return Err(e);
        },
    };
    Ok(
        RecordFields {
            inode,
            mode,
            uid,
            gid,
            nlink,
            mtime,
            dev_major,
            dev_minor,
            rdev_major,
            rdev_minor,
        },
    )
}

/// The entry name, with `./` and `/` prefixes stripped.
fn entry_name(data: &[u8], namesize: u32) -> (name: Option<&str>)
    requires
        cpio_sizes_parse(data@),
        cpio_entry_in_bounds(data@),
        namesize == cpio_namesize(data@),
    ensures
        name is Some <==> valid_utf8(cpio_name_bytes(data@)),
        name matches Some(n) ==> n@ == cpio_name(data@),
{
    let name_bytes = &data[HEADER_SIZE_BYTES..(HEADER_SIZE_BYTES + namesize as usize - 1)];
    assert(name_bytes@ == cpio_name_bytes(data@));
    let full_name = match from_utf8(name_bytes) {
        Some(name) => name,
        None => {
            return None;
        },
    };
    let ghost full = decode_utf8(cpio_name_bytes(data@));
    proof {
        crate::strings::lemma_decode_of_bytes(full_name);
        assert(full_name@ == full);
    }
    let dot_slash = "./";
    proof {
        reveal_strlit("./");
        assert(dot_slash@ =~= seq!['.', '/']);
    }
    let name = match strip_prefix_str(full_name, dot_slash) {
        Some(rest) => rest,
        None => full_name,
    };
    let ghost s1 = if full.len() >= 2 && full[0] == '.' && full[1] == '/' {
        full.skip(2)
    } else {
        full
    };
    assert(name@ == s1) by {
        if full.len() >= 2 && full[0] == '.' && full[1] == '/' {
            assert(full.subrange(0, 2) =~= seq!['.', '/']);
        } else if 2 <= full.len() && full.subrange(0, 2) == seq!['.', '/'] {
            assert(full.subrange(0, 2)[0] == '.');
            assert(full.subrange(0, 2)[1] == '/');
        }
    }
    let name = match strip_prefix_char(name, '/') {
        Some(rest) => rest,
        None => name,
    };
    Some(name)
}

proof fn lemma_name_bytes_fit(data: Seq<u8>)
    requires
        cpio_sizes_parse(data),
        cpio_entry_in_bounds(data),
    ensures
        HEADER_SIZE_BYTES + cpio_namesize(data) + 3 <= usize::MAX,
        align4(HEADER_SIZE_BYTES + cpio_namesize(data)) + cpio_field(data, FILESIZE as int).unwrap()
            + 3 <= usize::MAX,
{
}

/// Parses the entry at the start of `data`. Returns `None` for the trailer
/// entry that ends the archive.
pub fn parse_entry(data: &[u8]) -> (result: Result<Option<CpioHeader<'_>>, Error>)
    requires
        cpio_entry_in_bounds(data@),
    ensures
        data@.len() < HEADER_SIZE_BYTES ==> result matches Err(Error::HeaderTooSmall),
        data@.len() >= HEADER_SIZE_BYTES && !cpio_magic_ok(data@) ==> result matches Err(
            Error::InvalidMagic,
        ),
        data@.len() >= HEADER_SIZE_BYTES && cpio_magic_ok(data@) && !(cpio_sizes_parse(data@)
            && cpio_rest_parses(data@)) ==> result matches Err(Error::CouldNotParse),
        cpio_sizes_parse(data@) && cpio_rest_parses(data@) ==> {
            &&& result is Ok
            &&& (result matches Ok(None) <==> cpio_name(data@) == trailer_name())
            &&& (result matches Ok(Some(header)) ==> header_matches(header, data@))
        },
{
    let (namesize, filesize) = match parse_sizes(data) {
        Ok(sizes) => sizes,
        Err(e) => {
            return Err(e);
        },
    };
    proof {
        lemma_name_bytes_fit(data@);
        lemma_align4((HEADER_SIZE_BYTES + namesize as usize) as usize);
    }
    let data_offset = (HEADER_SIZE_BYTES + namesize as usize + 3) & !3;
    proof {
        lemma_align4((data_offset + filesize as usize) as usize);
    }
    let next_entry_offset = (data_offset + filesize as usize + 3) & !3;
    let name = match entry_name(data, namesize) {
        Some(name) => name,
        None => {
            return Err(Error::CouldNotParse);
        },
    };
    let fields = match parse_other_fields(data) {
        Ok(fields) => fields,
        Err(e) => {
            return Err(e);
        },
    };
    let header = CpioHeader {
        inode: fields.inode,
        mode: fields.mode,
        uid: fields.uid,
        gid: fields.gid,
        nlink: fields.nlink,
        mtime: fields.mtime,
        filesize,
        dev_major: fields.dev_major,
        dev_minor: fields.dev_minor,
        rdev_major: fields.rdev_major,
        rdev_minor: fields.rdev_minor,
        namesize,
        name,
        data_offset,
        next_entry_offset,
    };
    let trailer = "TRAILER!!!";
    proof {
        reveal_strlit("TRAILER!!!");
        assert(trailer@ =~= trailer_name());
    }
    if str_eq(name, trailer) {
        return Ok(None);
    }
    Ok(Some(header))
}

} // verus!
