//! Page tables for the 16 KiB translation granule: four levels, 48-bit
//! addresses. A level-0 entry spans 128 TiB, a level-1 entry 64 GiB, a
//! level-2 entry 32 MiB and a level-3 entry one page. Level 2 can map whole
//! entries with block descriptors, level 3 maps pages.
//!
//! A table descriptor owns the table of the next level.
use vstd::prelude::*;

use crate::memory::address::{Address, PhysicalAddress, VirtualAddress};
use crate::memory::{attributes_from_index, attributes_index, Attributes, GlobalPermissions, Permissions};

verus! {

pub const VA_MASK: u64 = 0xFFFF_FFFF_C000;
pub const PA_MASK: u64 = 0xFFFF_FFFF_C000;
pub const PAGE_BITS: usize = 14;
pub const PAGE_SIZE: usize = 16384;

pub const PXN: u64 = 0x20_0000_0000_0000;
pub const UXN: u64 = 0x40_0000_0000_0000;

pub const VALID_BIT: u64 = 1;
pub const TABLE_BIT: u64 = 2;
pub const ACCESS_FLAG: u64 = 0x400;
pub const PAGE_BIT: u64 = 0x80_0000_0000_0000;
pub const SHAREABILITY: u64 = 0x200;

const MAIR_ATTR_OFFSET: u64 = 2;


/// Translation levels. An entry of level 0 spans 128 TiB, of level 1
/// 64 GiB, of level 2 32 MiB and of level 3 16 KiB; a table of level 0
/// spans 256 TiB.
#[derive(PartialEq, Eq, Structural, Clone, Copy, Debug)]
pub enum TranslationLevel {
    Level0,
    Level1,
    Level2,
    Level3,
}

pub open spec fn level_num(level: TranslationLevel) -> int {
    match level {
        TranslationLevel::Level0 => 0,
        TranslationLevel::Level1 => 1,
        TranslationLevel::Level2 => 2,
        TranslationLevel::Level3 => 3,
    }
}

/// Bytes spanned by one entry of a table of level `n`.
pub open spec fn esize(n: int) -> int {
    if n == 0 {
        0x8000_0000_0000
    } else if n == 1 {
        0x10_0000_0000
    } else if n == 2 {
        0x200_0000
    } else {
        0x4000
    }
}

/// Bytes spanned by a whole table of level `n`.
pub open spec fn span(n: int) -> int {
    if n == 0 {
        0x1_0000_0000_0000
    } else {
        esize(n - 1)
    }
}

/// The entry of a table of level `n` that translates `va`.
pub open spec fn table_index(n: int, va: int) -> int {
    (va % span(n)) / esize(n)
}

proof fn lemma_index_bits(va: u64)
    ensures
        (va & 0x8000_0000_0000u64) >> 47u64 == (va % 0x1_0000_0000_0000) / 0x8000_0000_0000,
        (va & 0x7FF0_0000_0000u64) >> 36u64 == (va % 0x8000_0000_0000) / 0x10_0000_0000,
        (va & 0xF_FE00_0000u64) >> 25u64 == (va % 0x10_0000_0000) / 0x200_0000,
        (va & 0x1FF_C000u64) >> 14u64 == (va % 0x200_0000) / 0x4000,
{
    assert((va & 0x8000_0000_0000u64) >> 47u64 == (va % 0x1_0000_0000_0000) / 0x8000_0000_0000)
        by (bit_vector);
    assert((va & 0x7FF0_0000_0000u64) >> 36u64 == (va % 0x8000_0000_0000) / 0x10_0000_0000)
        by (bit_vector);
    assert((va & 0xF_FE00_0000u64) >> 25u64 == (va % 0x10_0000_0000) / 0x200_0000)
        by (bit_vector);
    assert((va & 0x1FF_C000u64) >> 14u64 == (va % 0x200_0000) / 0x4000) by (bit_vector);
}

impl TranslationLevel {
    fn is_last(&self) -> (last: bool)
        ensures
            last == (level_num(*self) == 3),
    {
        *self == TranslationLevel::Level3
    }

    fn supports_block_descriptors(&self) -> (supported: bool)
        ensures
            supported == (level_num(*self) == 2),
    {
        matches!(*self, TranslationLevel::Level2)
    }

    fn address_range_size(&self) -> (size: u64)
        ensures
            size == span(level_num(*self)),
    {
        match *self {
            TranslationLevel::Level0 => 0x1_0000_0000_0000,
            TranslationLevel::Level1 => 0x8000_0000_0000,
            TranslationLevel::Level2 => 0x10_0000_0000,
            TranslationLevel::Level3 => 0x200_0000,
        }
    }

    fn entry_size(&self) -> (size: u64)
        ensures
            size == esize(level_num(*self)),
    {
        match *self {
            TranslationLevel::Level0 => 0x8000_0000_0000,
            TranslationLevel::Level1 => 0x10_0000_0000,
            TranslationLevel::Level2 => 0x200_0000,
            TranslationLevel::Level3 => 0x4000,
        }
    }

    fn va_mask(&self) -> (mask: u64)
        ensures
            mask == span(level_num(*self)) - esize(level_num(*self)),
    {
        self.address_range_size() - self.entry_size()
    }

    fn offset(&self) -> (offset: u64)
        ensures
            offset == 47 - 11 * level_num(*self),
    {
        match *self {
            TranslationLevel::Level0 => 47,
            TranslationLevel::Level1 => 36,
            TranslationLevel::Level2 => 25,
            TranslationLevel::Level3 => 14,
        }
    }

    fn table_index_for_addr(&self, va: u64) -> (index: usize)
        ensures
            index == table_index(level_num(*self), va as int),
            index < 2048,
    {
        proof {
            lemma_index_bits(va);
        }
        let index = (va & self.va_mask()) >> self.offset();
        index as usize
    }

    fn is_address_aligned(&self, va: u64) -> (aligned: bool)
        ensures
            aligned == (va % esize(level_num(*self)) as u64 == 0),
    {
        (va % self.entry_size()) == 0
    }

    /// The size of the chunk that a walk at this level takes from `va` with
    /// `remaining` bytes left.
    fn chunk_size(&self, va: u64, remaining: u64) -> (chunk: u64)
        requires
            va % 0x4000 == 0,
            remaining > 0,
            remaining % 0x4000 == 0,
        ensures
            chunk == chunk_of(level_num(*self), va as int, remaining as int),
            0 < chunk <= esize(level_num(*self)),
            chunk % 0x4000 == 0,
            chunk <= remaining,
    {
        let n = Ghost(level_num(*self));
        let entry_size = self.entry_size();
        proof {
            lemma_mod_nested(va as int, n@);
        }
        if !self.is_address_aligned(va) {
            let next_level = self.next();
            proof {
                lemma_unaligned_chunk(va as int, n@);
                lemma_mod_nested(va as int, n@ + 1);
            }
            let rem_entry_size = entry_size - next_level.table_index_for_addr(va) as u64
                * next_level.entry_size();
            if rem_entry_size < remaining {
                rem_entry_size
            } else {
                remaining
            }
        } else {
            if entry_size < remaining {
                entry_size
            } else {
                remaining
            }
        }
    }

    fn next(&self) -> (next: Self)
        ensures
            level_num(next) == if level_num(*self) < 3 {
                level_num(*self) + 1
            } else {
                3
            },
    {
        match *self {
            TranslationLevel::Level0 => TranslationLevel::Level1,
            TranslationLevel::Level1 => TranslationLevel::Level2,
            TranslationLevel::Level2 => TranslationLevel::Level3,
            TranslationLevel::Level3 => TranslationLevel::Level3,
        }
    }
}

#[derive(Debug, Clone)]
pub enum Error {
    OverlapsExistingMapping(VirtualAddress, TranslationLevel),
    UnalignedAddress,
    InvalidPermissions,
}

/// The attribute index field of a descriptor for `attributes`.
pub open spec fn mair_bits(attributes: Attributes) -> u64 {
    (attributes_index(attributes) * 4) as u64
}

fn mair_index_from_attrs(attrs: Attributes) -> (bits: u64)
    ensures
        bits == mair_bits(attrs),
{
    let index = attrs.index();
    assert((index & 0x7) << 2u64 == index * 4) by (bit_vector)
        requires
            index <= 2,
    ;
    (index & 0x7) << MAIR_ATTR_OFFSET
}

/// The attribute index held in descriptor bits.
pub open spec fn attr_index_of(mapping: u64) -> u64 {
    (mapping / 4) % 8
}

fn attributes_from_mapping(mapping: u64) -> (attrs: Result<Attributes, Error>)
    requires
        attr_index_of(mapping) <= 2,
    ensures
        attrs is Ok,
        attributes_from_index(attr_index_of(mapping)) == Ok::<Attributes, ()>(attrs.unwrap()),
{
    assert((mapping >> 2u64) & 0x7 == (mapping / 4) % 8) by (bit_vector);
    match Attributes::try_from((mapping >> MAIR_ATTR_OFFSET) & 0x7) {
        Ok(a) => Ok(a),
        Err(_) => {
            assert(false);
            Err(Error::InvalidPermissions)
        },
    }
}

/// The access-permission field for `permissions`, when the hardware can
/// express them.
pub open spec fn ap_bits(permissions: GlobalPermissions) -> Option<u64> {
    let p = permissions.privileged;
    let u = permissions.unprivileged;
    if (p == Permissions::RW || p == Permissions::RWX) && u == Permissions::NoAccess {
        Some(0)
    } else if (p == Permissions::RX || p == Permissions::RO) && u == Permissions::NoAccess {
        Some(0x80)
    } else if p == Permissions::RW && (u == Permissions::RW || u == Permissions::RWX) {
        Some(0x40)
    } else if (p == Permissions::RX || p == Permissions::RO) && (u == Permissions::RX || u
        == Permissions::RO) {
        Some(0xC0)
    } else {
        None
    }
}

pub open spec fn executable(p: Permissions) -> bool {
    p == Permissions::RWX || p == Permissions::RX
}

/// The execute-never bits for `permissions`.
pub open spec fn nx_bits(permissions: GlobalPermissions) -> u64 {
    ((if executable(permissions.privileged) {
        0
    } else {
        PXN
    }) + (if executable(permissions.unprivileged) {
        0
    } else {
        UXN
    })) as u64
}

/// All permission bits of a descriptor for `permissions`.
pub open spec fn perm_bits(permissions: GlobalPermissions) -> Option<u64> {
    match ap_bits(permissions) {
        Some(ap) => Some((ap + nx_bits(permissions)) as u64),
        None => None,
    }
}

fn permission_ap_bits(permissions: GlobalPermissions) -> (bits: Result<u64, Error>)
    ensures
        match ap_bits(permissions) {
            Some(b) => bits == Ok::<u64, Error>(b),
            None => bits matches Err(Error::InvalidPermissions),
        },
{
    let GlobalPermissions { privileged, unprivileged } = permissions;
    match (privileged, unprivileged) {
        (Permissions::RW, Permissions::NoAccess) | (Permissions::RWX, Permissions::NoAccess) => Ok(
            0x00,
        ),
        (Permissions::RX, Permissions::NoAccess) | (Permissions::RO, Permissions::NoAccess) => Ok(
            0x80,
        ),
        (Permissions::RW, Permissions::RW) | (Permissions::RW, Permissions::RWX) => Ok(0x40),
        (Permissions::RX, Permissions::RX)
        | (Permissions::RX, Permissions::RO)
        | (Permissions::RO, Permissions::RX)
        | (Permissions::RO, Permissions::RO) => Ok(0xC0),
        _ => Err(Error::InvalidPermissions),
    }
}

fn permission_nx_bits(permissions: GlobalPermissions) -> (bits: Result<u64, Error>)
    ensures
        bits == Ok::<u64, Error>(nx_bits(permissions)),
{
    let GlobalPermissions { privileged, unprivileged } = permissions;
    let pxn = match privileged {
        Permissions::RWX | Permissions::RX => 0,
        _ => PXN,
    };
    let uxn = match unprivileged {
        Permissions::RWX | Permissions::RX => 0,
        _ => UXN,
    };
    assert(pxn | uxn == pxn + uxn) by (bit_vector)
        requires
            pxn == 0 || pxn == 0x20_0000_0000_0000u64,
            uxn == 0 || uxn == 0x40_0000_0000_0000u64,
    ;
    Ok(pxn | uxn)
}

fn permission_bits(permissions: GlobalPermissions) -> (bits: Result<u64, Error>)
    ensures
        match perm_bits(permissions) {
            Some(b) => bits == Ok::<u64, Error>(b),
            None => bits matches Err(Error::InvalidPermissions),
        },
{
    let ap = match permission_ap_bits(permissions) {
        Ok(ap) => ap,
        Err(e) => {
            return Err(e);
        },
    };
    let nx = match permission_nx_bits(permissions) {
        Ok(nx) => nx,
        Err(e) => {
            return Err(e);
        },
    };
    assert(ap | nx == ap + nx) by (bit_vector)
        requires
            ap == 0 || ap == 0x40u64 || ap == 0x80u64 || ap == 0xC0u64,
            nx == 0 || nx == 0x20_0000_0000_0000u64 || nx == 0x40_0000_0000_0000u64 || nx
                == 0x60_0000_0000_0000u64,
    ;
    Ok(ap | nx)
}

/// The permissions that descriptor bits grant, from the execute-never bits
/// and the access-permission field.
pub open spec fn decode_permissions(pxn: bool, uxn: bool, writable: bool, user: bool) -> GlobalPermissions {
    let (privileged, unprivileged) = if !user {
        (
            if writable {
                if pxn {
                    Permissions::RW
                } else {
                    Permissions::RWX
                }
            } else {
                if pxn {
                    Permissions::RO
                } else {
                    Permissions::RX
                }
            },
            Permissions::NoAccess,
        )
    } else if !writable {
        (
            if pxn {
                Permissions::RO
            } else {
                Permissions::RX
            },
            if uxn {
                Permissions::RO
            } else {
                Permissions::RX
            },
        )
    } else if !uxn {
        (Permissions::RW, Permissions::RWX)
    } else if pxn {
        (Permissions::RW, Permissions::RW)
    } else {
        (Permissions::RWX, Permissions::RW)
    };
    GlobalPermissions { privileged, unprivileged }
}

/// The permissions that descriptor bits `mapping` grant.
pub open spec fn mapping_permissions(mapping: u64) -> GlobalPermissions {
    decode_permissions(
        mapping & PXN != 0,
        mapping & UXN != 0,
        mapping & 0x80 == 0,
        mapping & 0x40 != 0,
    )
}

fn permissions_from_mapping(mapping: u64) -> (permissions: GlobalPermissions)
    ensures
        permissions == mapping_permissions(mapping),
{
    let pxn = (mapping & PXN) != 0;
    let uxn = (mapping & UXN) != 0;
    let writable = (mapping & 0x80) == 0;
    let user = (mapping & 0x40) != 0;
    match (pxn, uxn, writable, user) {
        (false, _, false, false) => GlobalPermissions {
            privileged: Permissions::RX,
            unprivileged: Permissions::NoAccess,
        },
        (true, _, false, false) => GlobalPermissions {
            privileged: Permissions::RO,
            unprivileged: Permissions::NoAccess,
        },
        (false, _, true, false) => GlobalPermissions {
            privileged: Permissions::RWX,
            unprivileged: Permissions::NoAccess,
        },
        (true, _, true, false) => GlobalPermissions {
            privileged: Permissions::RW,
            unprivileged: Permissions::NoAccess,
        },
        (false, false, false, true) => GlobalPermissions {
            privileged: Permissions::RX,
            unprivileged: Permissions::RX,
        },
        (true, false, false, true) => GlobalPermissions {
            privileged: Permissions::RO,
            unprivileged: Permissions::RX,
        },
        (false, true, false, true) => GlobalPermissions {
            privileged: Permissions::RX,
            unprivileged: Permissions::RO,
        },
        (true, true, false, true) => GlobalPermissions {
            privileged: Permissions::RO,
            unprivileged: Permissions::RO,
        },
        (_, false, true, true) => GlobalPermissions {
            privileged: Permissions::RW,
            unprivileged: Permissions::RWX,
        },
        (false, true, true, true) => GlobalPermissions {
            privileged: Permissions::RWX,
            unprivileged: Permissions::RW,
        },
        (true, true, true, true) => GlobalPermissions {
            privileged: Permissions::RW,
            unprivileged: Permissions::RW,
        },
    }
}

/// Encoding permissions that the hardware can express and decoding the
/// descriptor bits gives them back.
pub proof fn law_permissions_roundtrip(permissions: GlobalPermissions)
    requires
        perm_bits(permissions) is Some,
    ensures
        mapping_permissions(perm_bits(permissions).unwrap()) == permissions,
{
    let b = perm_bits(permissions).unwrap();
    let ap = ap_bits(permissions).unwrap();
    let nx = nx_bits(permissions);
    assert(b == ap + nx);
    assert((b & 0x20_0000_0000_0000u64 != 0) == (nx & 0x20_0000_0000_0000u64 != 0) && (b
        & 0x40_0000_0000_0000u64 != 0) == (nx & 0x40_0000_0000_0000u64 != 0) && b & 0x80u64 == ap
        & 0x80u64 && b & 0x40u64 == ap & 0x40u64) by (bit_vector)
        requires
            b == ap + nx,
            ap == 0 || ap == 0x40u64 || ap == 0x80u64 || ap == 0xC0u64,
            nx == 0 || nx == 0x20_0000_0000_0000u64 || nx == 0x40_0000_0000_0000u64 || nx
                == 0x60_0000_0000_0000u64,
    ;
    assert(0x20_0000_0000_0000u64 & 0x20_0000_0000_0000u64 != 0 && 0x40_0000_0000_0000u64
        & 0x20_0000_0000_0000u64 == 0 && 0x60_0000_0000_0000u64 & 0x20_0000_0000_0000u64 != 0
        && 0u64 & 0x20_0000_0000_0000u64 == 0) by (bit_vector);
    assert(0x20_0000_0000_0000u64 & 0x40_0000_0000_0000u64 == 0 && 0x40_0000_0000_0000u64
        & 0x40_0000_0000_0000u64 != 0 && 0x60_0000_0000_0000u64 & 0x40_0000_0000_0000u64 != 0
        && 0u64 & 0x40_0000_0000_0000u64 == 0) by (bit_vector);
    assert(0u64 & 0x80 == 0 && 0x40u64 & 0x80 == 0 && 0x80u64 & 0x80 != 0 && 0xC0u64 & 0x80
        != 0) by (bit_vector);
    assert(0u64 & 0x40 == 0 && 0x40u64 & 0x40 != 0 && 0x80u64 & 0x40 == 0 && 0xC0u64 & 0x40
        != 0) by (bit_vector);
}


/// Permission bits of a descriptor: execute-never and access permissions.
pub const PERM_MASK: u64 = 0x60_0000_0000_00C0;

#[derive(Eq, PartialEq, Structural, Debug, Clone, Copy)]
pub enum DescriptorType {
    Invalid,
    Page,
    Block,
    Table,
}

/// The kind of descriptor that `bits` encode.
pub open spec fn desc_type(bits: u64) -> DescriptorType {
    if bits & VALID_BIT == 0 {
        DescriptorType::Invalid
    } else if bits & TABLE_BIT == 0 {
        DescriptorType::Block
    } else if bits & PAGE_BIT == 0 {
        DescriptorType::Table
    } else {
        DescriptorType::Page
    }
}

pub open spec fn is_leaf(bits: u64) -> bool {
    desc_type(bits) == DescriptorType::Page || desc_type(bits) == DescriptorType::Block
}

/// What a leaf descriptor translates to: the output address and the
/// attribute index and permission bits of the mapping.
pub type Translation = (int, u64, u64);

/// A descriptor. A table descriptor owns the table of the next level.
pub struct DescriptorEntry {
    bits: u64,
    table: Option<Box<LevelTable>>,
}

/// A table of 2048 descriptors.
pub struct LevelTable {
    table: Vec<DescriptorEntry>,
}

/// What entry `e` of a table of level `n` translates offset `x` within the
/// entry to.
pub closed spec fn entry_translate(e: DescriptorEntry, n: int, x: int) -> Option<Translation>
    decreases 3 - n, 0int,
{
    if is_leaf(e.bits) {
        Some(((e.bits & PA_MASK) + x, attr_index_of(e.bits), e.bits & PERM_MASK))
    } else if desc_type(e.bits) == DescriptorType::Table && 0 <= n < 3 {
        match e.table {
            Some(c) => translate(*c, n + 1, x),
            None => None,
        }
    } else {
        None
    }
}

/// What a table of level `n` translates offset `o` of the address range it
/// spans to.
pub closed spec fn translate(t: LevelTable, n: int, o: int) -> Option<Translation>
    decreases 3 - n, 1int,
{
    if 0 <= n <= 3 && 0 <= o < span(n) {
        entry_translate(t.table@[o / esize(n)], n, o % esize(n))
    } else {
        None
    }
}

/// A well-formed table of level `n`: 2048 entries, a table descriptor owns
/// a well-formed table of the next level and exists above level 3 only, and
/// leaves carry a known attribute index.
pub closed spec fn wf_table(t: LevelTable, n: int) -> bool
    decreases 3 - n, 1int,
{
    &&& 0 <= n <= 3
    &&& t.table@.len() == 2048
    &&& forall|i: int| 0 <= i < 2048 ==> wf_entry(#[trigger] t.table@[i], n)
}

pub closed spec fn wf_entry(e: DescriptorEntry, n: int) -> bool
    decreases 3 - n, 0int,
{
    match desc_type(e.bits) {
        DescriptorType::Table => 0 <= n < 3 && match e.table {
            Some(c) => wf_table(*c, n + 1),
            None => false,
        },
        DescriptorType::Invalid => e.table is None,
        _ => e.table is None && attr_index_of(e.bits) <= 2,
    }
}

/// The range `[o0, o0 + size)` of a table translates to nothing.
#[verifier::opaque]
pub open spec fn unmapped(t: LevelTable, n: int, o0: int, size: int) -> bool {
    forall|o: int| o0 <= o < o0 + size ==> #[trigger] translate(t, n, o) is None
}

/// `new` translates `[o0, o0 + size)` to `pa` onwards with the given
/// attribute index and permission bits, and the rest as `old` does.
#[verifier::opaque]
pub open spec fn mapped_as(
    new: LevelTable,
    old: LevelTable,
    n: int,
    o0: int,
    size: int,
    pa: int,
    attr: u64,
    perm: u64,
) -> bool {
    forall|o: int|
        #![trigger translate(new, n, o)]
        translate(new, n, o) == if o0 <= o < o0 + size {
            Some((pa + (o - o0), attr, perm))
        } else {
            translate(old, n, o)
        }
}

/// `new` translates `[o0, o0 + size)` to nothing and the rest as `old`.
#[verifier::opaque]
pub open spec fn unmapped_as(new: LevelTable, old: LevelTable, n: int, o0: int, size: int) -> bool {
    forall|o: int|
        #![trigger translate(new, n, o)]
        translate(new, n, o) == if o0 <= o < o0 + size {
            None
        } else {
            translate(old, n, o)
        }
}

/// Both tables translate every address alike.
#[verifier::opaque]
pub open spec fn same_translation(a: LevelTable, b: LevelTable, n: int) -> bool {
    forall|o: int| #![trigger translate(a, n, o)] translate(a, n, o) == translate(b, n, o)
}

/// Mapping `size` bytes from `va` at level `n` splits its range exactly at
/// entry boundaries. A range that starts inside an entry and inside an
/// entry of the next level is split correctly only when it ends within the
/// entry it starts in.
pub open spec fn splits_exactly(n: int, va: int, size: int) -> bool
    decreases 3 - n,
{
    if n >= 3 || n < 0 || va % esize(n) == 0 || va % esize(n + 1) == 0 {
        true
    } else {
        size <= esize(n) - va % esize(n) && splits_exactly(n + 1, va, size)
    }
}

/// Mapping `size` bytes from `va` to `pa` in table `t` of level `n` is
/// well defined: the range, rounded up to whole pages, stays inside the table,
/// is split at entry boundaries, is not mapped yet, and the output range is
/// page aligned and lies below 256 TiB.
pub open spec fn map_ok(t: LevelTable, n: int, va: int, pa: int, size: int) -> bool {
    let s = page_round(size);
    &&& va % span(n) + s <= span(n)
    &&& splits_exactly(n, va, s)
    &&& unmapped(t, n, va % span(n), s)
    &&& pa % 0x4000 == 0
    &&& pa + s <= 0x1_0000_0000_0000
}

/// What mapping answers and leaves behind when `map_ok` holds: with
/// permissions that the hardware can express the range is mapped and the
/// rest untouched; otherwise nothing changes and it fails unless the range
/// is empty.
pub open spec fn map_result(
    new: LevelTable,
    old: LevelTable,
    n: int,
    va: int,
    pa: int,
    size: int,
    attributes: Attributes,
    permissions: GlobalPermissions,
    result: Result<(), Error>,
) -> bool {
    match perm_bits(permissions) {
        Some(pb) => result is Ok && mapped_as(
            new,
            old,
            n,
            va % span(n),
            page_round(size),
            pa,
            attributes_index(attributes),
            pb,
        ),
        None => {
            &&& same_translation(new, old, n)
            &&& page_round(size) == 0 ==> result is Ok
            &&& page_round(size) != 0 ==> (result matches Err(Error::InvalidPermissions))
        },
    }
}

/// One chunk `[va, va + c)` of a mapping lies inside one entry of table `t`
/// of level `n`, is not mapped yet, goes to page-aligned memory below
/// 256 TiB, and splits exactly in the next level.
#[verifier::opaque]
pub open spec fn chunk_ok(t: LevelTable, n: int, va: int, pa: int, c: int) -> bool {
    &&& (va % span(n)) % esize(n) + c <= esize(n)
    &&& unmapped(t, n, va % span(n), c)
    &&& pa % 0x4000 == 0
    &&& pa + c <= 0x1_0000_0000_0000
    &&& n < 3 ==> splits_exactly(n + 1, va, c)
}

/// The chunk that mapping at level `n` takes from address `va` with `rem`
/// bytes left: up to the end of the entry, measured in entries of the next
/// level when `va` is inside an entry.
pub open spec fn chunk_of(n: int, va: int, rem: int) -> int {
    let c = if va % esize(n) == 0 {
        esize(n)
    } else {
        esize(n) - ((va % span(n + 1)) / esize(n + 1)) * esize(n + 1)
    };
    if c < rem {
        c
    } else {
        rem
    }
}

/// The entries of a fresh table: all invalid, owning nothing.
pub closed spec fn blank_entries() -> Seq<DescriptorEntry> {
    Seq::new(2048, |i: int| DescriptorEntry { bits: 0, table: None })
}

/// A fresh table has 2048 entries, each invalid, owning no table and with
/// no bits set.
pub proof fn lemma_blank_entries()
    ensures
        blank_entries().len() == 2048,
        forall|i: int|
            0 <= i < 2048 ==> #[trigger] blank_entries()[i].spec_bits() == 0 && desc_type(
                blank_entries()[i].spec_bits(),
            ) == DescriptorType::Invalid && blank_entries()[i].spec_child() is None,
{
    assert(0u64 & VALID_BIT == 0) by (bit_vector);
}

/// The entries of the table that entry `e` owns; those of a fresh table
/// when it owns none.
pub open spec fn child_entries(e: DescriptorEntry) -> Seq<DescriptorEntry> {
    match e.spec_child() {
        Some(c) => c.entries(),
        None => blank_entries(),
    }
}

/// The permission bits of descriptor `bits` are those that encoding the
/// permissions they decode to gives back.
pub open spec fn canonical_perms(bits: u64) -> bool {
    perm_bits(mapping_permissions(bits)) == Some(bits & PERM_MASK)
}

/// A descriptor whose permission bits encode permissions that the hardware
/// can express has canonical permission bits.
proof fn lemma_canonical_perms(bits: u64, permissions: GlobalPermissions)
    requires
        perm_bits(permissions) == Some(bits & PERM_MASK),
    ensures
        canonical_perms(bits),
{
    let pb = bits & PERM_MASK;
    law_permissions_roundtrip(permissions);
    assert((pb & 0x20_0000_0000_0000u64 != 0) == (bits & 0x20_0000_0000_0000u64 != 0) && (pb
        & 0x40_0000_0000_0000u64 != 0) == (bits & 0x40_0000_0000_0000u64 != 0) && (pb & 0x80u64 == 0)
        == (bits & 0x80u64 == 0) && (pb & 0x40u64 != 0) == (bits & 0x40u64 != 0)) by (bit_vector)
        requires
            pb == bits & 0x60_0000_0000_00C0u64,
    ;
    assert(mapping_permissions(bits) == mapping_permissions(pb));
}

/// The descriptors that mapping `[o0, o0 + s)` to the output addresses from
/// `p` on leaves in a table of level `n` whose entries were `old`: each
/// entry is laid out as `entry_laid_out` says for the part of the range
/// that falls in it, whose output address is `p` plus its distance from
/// `o0`.
pub open spec fn laid_out(new: LevelTable, old: Seq<DescriptorEntry>, n: int, o0: int, s: int, p: int) -> bool
    decreases 3 - n, 1int,
{
    &&& new.entries().len() == 2048
    &&& forall|j: int|
        #![trigger new.entries()[j]]
        0 <= j < 2048 ==> entry_laid_out(
            new.entries()[j],
            old[j],
            n,
            max_int(o0, j * esize(n)) - j * esize(n),
            min_int(o0 + s, (j + 1) * esize(n)) - max_int(o0, j * esize(n)),
            p + max_int(o0, j * esize(n)) - o0,
        )
}

/// The descriptor that mapping `c` bytes from offset `x` within an entry of
/// a table of level `n` to the output address `p` leaves, where the entry
/// was `old`: an entry the range misses is untouched; an invalid entry of
/// level 2 that the range covers whole becomes a block, one of level 3 a
/// page, whose output address is `p`; any other entry it touches is a
/// table whose own table is laid out in turn.
pub open spec fn entry_laid_out(new: DescriptorEntry, old: DescriptorEntry, n: int, x: int, c: int, p: int) -> bool
    decreases 3 - n, 0int,
{
    if c <= 0 {
        new == old
    } else if (n == 2 || n == 3) && x == 0 && c == esize(n) && desc_type(old.spec_bits())
        == DescriptorType::Invalid {
        &&& new.spec_child() is None
        &&& desc_type(new.spec_bits()) == if n == 3 {
            DescriptorType::Page
        } else {
            DescriptorType::Block
        }
        &&& new.spec_bits() & PA_MASK == p
        &&& p + esize(n) <= 0x1_0000_0000_0000
        &&& canonical_perms(new.spec_bits())
    } else if n < 3 {
        &&& desc_type(new.spec_bits()) == DescriptorType::Table
        &&& match new.spec_child() {
            Some(child) => laid_out(child, child_entries(old), n + 1, x, c, p),
            None => false,
        }
    } else {
        false
    }
}

/// Every entry of a table of level `n` that `[o0, o0 + s)` reaches already
/// maps its part of the range to the output addresses from `p` on: as
/// `entry_already` says.
pub open spec fn already_mapped(t: LevelTable, n: int, o0: int, s: int, p: int) -> bool
    decreases 3 - n, 1int,
{
    &&& t.entries().len() == 2048
    &&& forall|j: int|
        #![trigger t.entries()[j]]
        0 <= j < 2048 && j * esize(n) < o0 + s && o0 < (j + 1) * esize(n) ==> entry_already(
            t.entries()[j],
            n,
            max_int(o0, j * esize(n)) - j * esize(n),
            min_int(o0 + s, (j + 1) * esize(n)) - max_int(o0, j * esize(n)),
            p + max_int(o0, j * esize(n)) - o0,
        )
}

/// Entry `e` of a table of level `n` already maps `c` bytes from offset
/// `x` to `p`: it is a page or block descriptor whose output address is
/// `p`, or a table in which the part is already mapped in turn.
pub open spec fn entry_already(e: DescriptorEntry, n: int, x: int, c: int, p: int) -> bool
    decreases 3 - n, 0int,
{
    if is_leaf(e.spec_bits()) {
        e.spec_bits() & PA_MASK == p
    } else if desc_type(e.spec_bits()) == DescriptorType::Table && n < 3 {
        match e.spec_child() {
            Some(child) => already_mapped(child, n + 1, x, c, p),
            None => false,
        }
    } else {
        false
    }
}

/// Mapping `size` bytes from `va` to `pa` in table `t` of level `n` finds
/// the whole range mapped already, to the same output addresses, and split
/// at entry boundaries.
pub open spec fn remap_ok(t: LevelTable, n: int, va: int, pa: int, size: int) -> bool {
    let s = page_round(size);
    &&& va % span(n) + s <= span(n)
    &&& splits_exactly(n, va, s)
    &&& already_mapped(t, n, va % span(n), s, pa)
}

/// The chunk `[va, va + c)` lies in one entry of a table of level `n`, is
/// split at entry boundaries below it, and that entry already maps it to
/// `pa`.
#[verifier::opaque]
pub open spec fn chunk_remap_ok(t: LevelTable, n: int, va: int, pa: int, c: int) -> bool {
    &&& va % esize(n) + c <= esize(n)
    &&& (n < 3 ==> splits_exactly(n + 1, va, c))
    &&& entry_already(t.entries()[table_index(n, va)], n, va % esize(n), c, pa)
}

/// A mapping of `s` bytes from `va` to `pa` in a table of level `n` that
/// was `start`, with `done` bytes behind, over a range that `start` maps
/// already: the table still holds what `start` held.
#[verifier::opaque]
pub open spec fn remap_state(t: LevelTable, start: LevelTable, n: int, va: int, pa: int, s: int, done: int) -> bool {
    &&& geom_state(n, va, s, done)
    &&& already_mapped(start, n, va % span(n), s, pa)
    &&& same_tables(t, start, n)
}

/// Whether entry `j` of a table of level `n` is reached by `[o0, o0 + s)`.
pub open spec fn touched(n: int, o0: int, s: int, j: int) -> bool {
    0 <= j < 2048 && j * esize(n) < o0 + s && o0 < (j + 1) * esize(n)
}

/// Mapping `[o0, o0 + s)` to `p` onwards in a table of level `n` runs into a
/// descriptor that maps elsewhere: some entry the range reaches conflicts,
/// as `entry_conflict` says, and every entry the range reaches before it
/// maps its part already.
pub open spec fn map_conflict(t: LevelTable, n: int, o0: int, s: int, p: int) -> bool
    decreases 3 - n, 1int,
{
    &&& t.entries().len() == 2048
    &&& exists|j: int|
        #![trigger t.entries()[j]]
        touched(n, o0, s, j) && entry_conflict(
            t.entries()[j],
            n,
            max_int(o0, j * esize(n)) - j * esize(n),
            min_int(o0 + s, (j + 1) * esize(n)) - max_int(o0, j * esize(n)),
            p + max_int(o0, j * esize(n)) - o0,
        ) && forall|i: int|
            #![trigger t.entries()[i]]
            touched(n, o0, s, i) && i < j ==> entry_already(
                t.entries()[i],
                n,
                max_int(o0, i * esize(n)) - i * esize(n),
                min_int(o0 + s, (i + 1) * esize(n)) - max_int(o0, i * esize(n)),
                p + max_int(o0, i * esize(n)) - o0,
            )
}

/// Mapping `c` bytes from offset `x` of entry `e` of a table of level `n`
/// to `p` runs into a conflict: the entry is a page or block descriptor
/// whose output address is not `p`, or a table in which the part runs into
/// one in turn.
pub open spec fn entry_conflict(e: DescriptorEntry, n: int, x: int, c: int, p: int) -> bool
    decreases 3 - n, 0int,
{
    if is_leaf(e.spec_bits()) {
        e.spec_bits() & PA_MASK != p
    } else if desc_type(e.spec_bits()) == DescriptorType::Table && n < 3 {
        match e.spec_child() {
            Some(child) => map_conflict(child, n + 1, x, c, p),
            None => false,
        }
    } else {
        false
    }
}

/// Mapping `size` bytes from `va` to `pa` in table `t` of level `n`, split
/// at entry boundaries, runs into a descriptor that maps part of the range
/// elsewhere, after parts that are mapped already.
pub open spec fn conflict_ok(t: LevelTable, n: int, va: int, pa: int, size: int) -> bool {
    let s = page_round(size);
    &&& s > 0
    &&& va % span(n) + s <= span(n)
    &&& splits_exactly(n, va, s)
    &&& map_conflict(t, n, va % span(n), s, pa)
}

/// The chunk `[va, va + c)` lies in one entry of a table of level `n`, is
/// split at entry boundaries below it, and runs into a conflict there.
#[verifier::opaque]
pub open spec fn chunk_conflict_ok(t: LevelTable, n: int, va: int, pa: int, c: int) -> bool {
    &&& va % esize(n) + c <= esize(n)
    &&& (n < 3 ==> splits_exactly(n + 1, va, c))
    &&& entry_conflict(t.entries()[table_index(n, va)], n, va % esize(n), c, pa)
}

/// A mapping, with `done` bytes behind, of a range of `start` that runs into
/// a conflict in what is left: the table still holds what `start` held.
#[verifier::opaque]
pub open spec fn conflict_state(t: LevelTable, start: LevelTable, n: int, va: int, pa: int, s: int, done: int) -> bool {
    &&& geom_state(n, va, s, done)
    &&& done < s
    &&& map_conflict(start, n, va % span(n) + done, s - done, pa + done)
    &&& same_tables(t, start, n)
}

/// Two tables of level `n` hold the same descriptors, down to the tables
/// they own.
pub open spec fn same_tables(a: LevelTable, b: LevelTable, n: int) -> bool
    decreases 3 - n, 1int,
{
    &&& a.entries().len() == b.entries().len()
    &&& forall|j: int|
        #![trigger a.entries()[j]]
        0 <= j < a.entries().len() ==> same_entries(a.entries()[j], b.entries()[j], n)
}

pub open spec fn same_entries(x: DescriptorEntry, y: DescriptorEntry, n: int) -> bool
    decreases 3 - n, 0int,
{
    &&& x.spec_bits() == y.spec_bits()
    &&& match x.spec_child() {
        None => y.spec_child() is None,
        Some(c) => match y.spec_child() {
            Some(d) => n < 3 && same_tables(c, d, n + 1),
            None => false,
        },
    }
}

/// The geometry of a mapping of `s` bytes from `va` at level `n` once
/// `done` bytes are behind: the range fits, splits at entry boundaries, and
/// what is left starts at an entry boundary.
pub open spec fn geom_state(n: int, va: int, s: int, done: int) -> bool {
    &&& 0 <= n <= 3
    &&& va >= 0
    &&& va % span(n) + s <= span(n)
    &&& splits_exactly(n, va, s)
    &&& 0 <= done <= s
    &&& (0 < done < s ==> (va + done) % esize(n) == 0)
}

proof fn lemma_same_refl(t: LevelTable, n: int)
    requires
        wf_table(t, n),
    ensures
        same_tables(t, t, n),
    decreases 3 - n,
{
    assert forall|j: int| 0 <= j < t.entries().len() implies same_entries(
        #[trigger] t.entries()[j],
        t.entries()[j],
        n,
    ) by {
        assert(wf_entry(t.table@[j], n));
        if desc_type(t.table@[j].bits) == DescriptorType::Table {
            lemma_same_refl(*t.table@[j].table.unwrap(), n + 1);
        }
    }
}

proof fn lemma_same_trans(a: LevelTable, b: LevelTable, c: LevelTable, n: int)
    requires
        same_tables(a, b, n),
        same_tables(b, c, n),
    ensures
        same_tables(a, c, n),
    decreases 3 - n,
{
    assert forall|j: int| 0 <= j < a.entries().len() implies same_entries(
        #[trigger] a.entries()[j],
        c.entries()[j],
        n,
    ) by {
        assert(same_entries(a.entries()[j], b.entries()[j], n));
        assert(same_entries(b.entries()[j], c.entries()[j], n));
        if a.entries()[j].spec_child() is Some {
            lemma_same_trans(
                a.entries()[j].spec_child().unwrap(),
                b.entries()[j].spec_child().unwrap(),
                c.entries()[j].spec_child().unwrap(),
                n + 1,
            );
        }
    }
}

pub proof fn lemma_already_same(a: LevelTable, b: LevelTable, n: int, o0: int, s: int, p: int)
    requires
        same_tables(a, b, n),
        already_mapped(b, n, o0, s, p),
    ensures
        already_mapped(a, n, o0, s, p),
    decreases 3 - n,
{
    assert forall|j: int|
        0 <= j < 2048 && j * esize(n) < o0 + s && o0 < (j + 1) * esize(n) implies entry_already(
            #[trigger] a.entries()[j],
            n,
            max_int(o0, j * esize(n)) - j * esize(n),
            min_int(o0 + s, (j + 1) * esize(n)) - max_int(o0, j * esize(n)),
            p + max_int(o0, j * esize(n)) - o0,
        ) by {
        let x = max_int(o0, j * esize(n)) - j * esize(n);
        let c = min_int(o0 + s, (j + 1) * esize(n)) - max_int(o0, j * esize(n));
        assert(same_entries(a.entries()[j], b.entries()[j], n));
        assert(entry_already(b.entries()[j], n, x, c, p + max_int(o0, j * esize(n)) - o0));
        if !is_leaf(a.entries()[j].spec_bits()) {
            lemma_already_same(
                a.entries()[j].spec_child().unwrap(),
                b.entries()[j].spec_child().unwrap(),
                n + 1,
                x,
                c,
                p + max_int(o0, j * esize(n)) - o0,
            );
        }
    }
}

/// The descriptors that unmapping `[o0, o0 + s)` leaves in a table of level
/// `n` whose entries were `old`: each entry is cleared as `entry_cleared`
/// says for the part of the range that falls in it.
pub open spec fn cleared(new: LevelTable, old: Seq<DescriptorEntry>, n: int, o0: int, s: int) -> bool
    decreases 3 - n, 1int,
{
    &&& new.entries().len() == 2048
    &&& forall|j: int|
        #![trigger new.entries()[j]]
        0 <= j < 2048 ==> entry_cleared(
            new.entries()[j],
            old[j],
            n,
            max_int(o0, j * esize(n)) - j * esize(n),
            min_int(o0 + s, (j + 1) * esize(n)) - max_int(o0, j * esize(n)),
        )
}

/// The descriptor that unmapping `c` bytes from offset `x` within an entry
/// of a table of level `n` leaves, where the entry was `old`: an entry the
/// range misses, or an invalid one, is untouched; an entry the range covers
/// whole, or a page, becomes invalid; a table the range covers in part
/// stays a table whose own table is cleared in turn.
pub open spec fn entry_cleared(new: DescriptorEntry, old: DescriptorEntry, n: int, x: int, c: int) -> bool
    decreases 3 - n, 0int,
{
    if c <= 0 || desc_type(old.spec_bits()) == DescriptorType::Invalid {
        new == old
    } else if (x == 0 && c == esize(n)) || desc_type(old.spec_bits()) == DescriptorType::Page {
        &&& desc_type(new.spec_bits()) == DescriptorType::Invalid
        &&& new.spec_child() is None
    } else if n < 3 && desc_type(old.spec_bits()) == DescriptorType::Table {
        &&& desc_type(new.spec_bits()) == DescriptorType::Table
        &&& match new.spec_child() {
            Some(child) => cleared(child, child_entries(old), n + 1, x, c),
            None => false,
        }
    } else if n < 3 && desc_type(old.spec_bits()) == DescriptorType::Block && x == 0 {
        &&& desc_type(new.spec_bits()) == DescriptorType::Table
        &&& match new.spec_child() {
            Some(child) => exists|m: LevelTable|
                laid_out(m, blank_entries(), n + 1, 0, esize(n), (old.spec_bits() & PA_MASK) as int) && cleared(
                    child,
                    m.entries(),
                    n + 1,
                    0,
                    c,
                ),
            None => false,
        }
    } else {
        false
    }
}

/// Every entry of the table is invalid: it maps nothing.
pub open spec fn all_invalid(t: LevelTable) -> bool {
    forall|j: int| 0 <= j < t.entries().len() ==> desc_type(#[trigger] t.entries()[j].spec_bits()) == DescriptorType::Invalid
}

/// Unmapping nothing leaves every descriptor as it was.
proof fn lemma_cleared_empty(t: LevelTable, n: int, o0: int)
    requires
        t.table@.len() == 2048,
    ensures
        cleared(t, t.table@, n, o0, 0),
{
    assert forall|j: int| #![trigger t.entries()[j]] 0 <= j < 2048 implies entry_cleared(
        t.entries()[j],
        t.entries()[j],
        n,
        max_int(o0, j * esize(n)) - j * esize(n),
        min_int(o0 + 0, (j + 1) * esize(n)) - max_int(o0, j * esize(n)),
    ) by {}
}

/// Mapping nothing leaves every descriptor as it was.
proof fn lemma_laid_out_empty(t: LevelTable, n: int, o0: int, p: int)
    requires
        t.table@.len() == 2048,
    ensures
        laid_out(t, t.table@, n, o0, 0, p),
{
    assert forall|j: int| #![trigger t.entries()[j]] 0 <= j < 2048 implies entry_laid_out(
        t.entries()[j],
        t.entries()[j],
        n,
        max_int(o0, j * esize(n)) - j * esize(n),
        min_int(o0 + 0, (j + 1) * esize(n)) - max_int(o0, j * esize(n)),
        p + max_int(o0, j * esize(n)) - o0,
    ) by {}
}

/// A table laid out for `[o0, o0 + d)` stays laid out for `[o0, o0 + d + c)`
/// once the next chunk, which lies in one entry, is laid out there.
proof fn lemma_laid_out_step(
    t: LevelTable,
    t2: LevelTable,
    old: Seq<DescriptorEntry>,
    n: int,
    o0: int,
    d: int,
    c: int,
    p: int,
)
    requires
        0 <= n <= 3,
        0 <= o0,
        0 <= d,
        0 < c,
        laid_out(t, old, n, o0, d, p),
        t2.table@.len() == 2048,
        0 <= (o0 + d) / esize(n) < 2048,
        (o0 + d) % esize(n) + c <= esize(n),
        d > 0 ==> (o0 + d) % esize(n) == 0,
        forall|j: int| 0 <= j < 2048 && j != (o0 + d) / esize(n) ==> #[trigger] t2.table@[j] == t.table@[j],
        entry_laid_out(
            t2.table@[(o0 + d) / esize(n)],
            t.table@[(o0 + d) / esize(n)],
            n,
            (o0 + d) % esize(n),
            c,
            p + d,
        ),
    ensures
        laid_out(t2, old, n, o0, d + c, p),
{
    let e = esize(n);
    let idx = (o0 + d) / e;
    let r = (o0 + d) % e;
    assert(e > 0);
    vstd::arithmetic::div_mod::lemma_fundamental_div_mod(o0 + d, e);
    assert(o0 + d == idx * e + r);
    assert(0 <= r < e);
    assert forall|j: int| #![trigger t2.entries()[j]] 0 <= j < 2048 implies entry_laid_out(
        t2.entries()[j],
        old[j],
        n,
        max_int(o0, j * e) - j * e,
        min_int(o0 + d + c, (j + 1) * e) - max_int(o0, j * e),
        p + max_int(o0, j * e) - o0,
    ) by {
        let x = max_int(o0, j * e) - j * e;
        let c1 = min_int(o0 + d, (j + 1) * e) - max_int(o0, j * e);
        let c2 = min_int(o0 + d + c, (j + 1) * e) - max_int(o0, j * e);
        assert(entry_laid_out(
            t.entries()[j],
            old[j],
            n,
            max_int(o0, j * esize(n)) - j * esize(n),
            min_int(o0 + d, (j + 1) * esize(n)) - max_int(o0, j * esize(n)),
            p + max_int(o0, j * esize(n)) - o0,
        ));
        if j < idx {
            assert((j + 1) * e <= idx * e) by (nonlinear_arith)
                requires
                    j + 1 <= idx,
                    e > 0,
            ;
            assert(c1 == c2);
        } else if j > idx {
            assert((idx + 1) * e <= j * e) by (nonlinear_arith)
                requires
                    idx + 1 <= j,
                    e > 0,
            ;
            assert(c1 <= 0 && c2 <= 0);
            assert(t.table@[j] == old[j]);
        } else {
            assert(idx * e <= o0 + d);
            if d == 0 {
                assert(idx * e <= o0);
                assert(x == r);
            } else {
                assert(o0 + d == idx * e);
                assert(x == 0);
            }
            assert(c1 <= 0);
            assert(t.table@[j] == old[j]);
            assert(c2 == c);
        }
    }
}

/// A table laid out for `[o0, o0 + d)` stays laid out for `[o0, o0 + d + c)`
/// once the next chunk, which lies in one entry, is laid out there.
proof fn lemma_cleared_step(
    t: LevelTable,
    t2: LevelTable,
    old: Seq<DescriptorEntry>,
    n: int,
    o0: int,
    d: int,
    c: int,
)
    requires
        0 <= n <= 3,
        0 <= o0,
        0 <= d,
        0 < c,
        cleared(t, old, n, o0, d),
        t2.table@.len() == 2048,
        0 <= (o0 + d) / esize(n) < 2048,
        (o0 + d) % esize(n) + c <= esize(n),
        d > 0 ==> (o0 + d) % esize(n) == 0,
        forall|j: int| 0 <= j < 2048 && j != (o0 + d) / esize(n) ==> #[trigger] t2.table@[j] == t.table@[j],
        entry_cleared(
            t2.table@[(o0 + d) / esize(n)],
            t.table@[(o0 + d) / esize(n)],
            n,
            (o0 + d) % esize(n),
            c,
        ),
    ensures
        cleared(t2, old, n, o0, d + c),
{
    let e = esize(n);
    let idx = (o0 + d) / e;
    let r = (o0 + d) % e;
    assert(e > 0);
    vstd::arithmetic::div_mod::lemma_fundamental_div_mod(o0 + d, e);
    assert(o0 + d == idx * e + r);
    assert(0 <= r < e);
    assert forall|j: int| #![trigger t2.entries()[j]] 0 <= j < 2048 implies entry_cleared(
        t2.entries()[j],
        old[j],
        n,
        max_int(o0, j * e) - j * e,
        min_int(o0 + d + c, (j + 1) * e) - max_int(o0, j * e),
    ) by {
        let x = max_int(o0, j * e) - j * e;
        let c1 = min_int(o0 + d, (j + 1) * e) - max_int(o0, j * e);
        let c2 = min_int(o0 + d + c, (j + 1) * e) - max_int(o0, j * e);
        assert(entry_cleared(
            t.entries()[j],
            old[j],
            n,
            max_int(o0, j * esize(n)) - j * esize(n),
            min_int(o0 + d, (j + 1) * esize(n)) - max_int(o0, j * esize(n)),
        ));
        if j < idx {
            assert((j + 1) * e <= idx * e) by (nonlinear_arith)
                requires
                    j + 1 <= idx,
                    e > 0,
            ;
            assert(c1 == c2);
        } else if j > idx {
            assert((idx + 1) * e <= j * e) by (nonlinear_arith)
                requires
                    idx + 1 <= j,
                    e > 0,
            ;
            assert(c1 <= 0 && c2 <= 0);
            assert(t.table@[j] == old[j]);
        } else {
            assert(idx * e <= o0 + d);
            if d == 0 {
                assert(idx * e <= o0);
                assert(x == r);
            } else {
                assert(o0 + d == idx * e);
                assert(x == 0);
            }
            assert(c1 <= 0);
            assert(t.table@[j] == old[j]);
            assert(c2 == c);
        }
    }
}

/// The state of a mapping of `s` bytes from `va` to `pa` after `done` bytes.
#[verifier::opaque]
pub open spec fn loop_state(
    t: LevelTable,
    old: LevelTable,
    n: int,
    va: int,
    pa: int,
    s: int,
    done: int,
    attr: u64,
    pbo: Option<u64>,
) -> bool {
    &&& 0 <= n <= 3
    &&& va >= 0
    &&& va % span(n) + s <= span(n)
    &&& splits_exactly(n, va, s)
    &&& pa % 0x4000 == 0
    &&& pa + s <= 0x1_0000_0000_0000
    &&& 0 <= done <= s
    &&& (done > 0 ==> pbo is Some)
    &&& (0 < done < s ==> (va + done) % esize(n) == 0)
    &&& (pbo matches Some(pb) ==> mapped_as(t, old, n, va % span(n), done, pa, attr, pb))
    &&& (done == 0 ==> same_translation(t, old, n))
    &&& unmapped(t, n, va % span(n) + done, s - done)
}

proof fn lemma_loop_init(
    old: LevelTable,
    n: int,
    va: int,
    pa: int,
    size: int,
    attr: u64,
    pbo: Option<u64>,
)
    requires
        0 <= n <= 3,
        va >= 0,
        size >= 0,
        map_ok(old, n, va, pa, size),
    ensures
        loop_state(old, old, n, va, pa, page_round(size), 0, attr, pbo),
{
    reveal(unmapped);
    reveal(mapped_as);
    reveal(same_translation);
    reveal(unmapped_as);
    reveal(loop_state);
    reveal(chunk_ok);
}

#[verifier::rlimit(50)]
#[verifier::spinoff_prover]
proof fn lemma_chunk_ok(
    t: LevelTable,
    old: LevelTable,
    n: int,
    va: int,
    pa: int,
    s: int,
    done: int,
    c: int,
    attr: u64,
    pbo: Option<u64>,
)
    requires
        loop_state(t, old, n, va, pa, s, done, attr, pbo),
        done < s,
        done % 0x4000 == 0,
        (va + done) % 0x4000 == 0,
        (s - done) % 0x4000 == 0,
        c == chunk_of(n, va + done, s - done),
        (va + done) % esize(n) != 0 ==> n < 3,
    ensures
        chunk_ok(t, n, va + done, pa + done, c),
        (va + done) % span(n) == va % span(n) + done,
        pa + done < 0x1_0000_0000_0000,
{
    reveal(unmapped);
    reveal(mapped_as);
    reveal(same_translation);
    reveal(unmapped_as);
    reveal(loop_state);
    reveal(chunk_ok);
    let e = esize(n);
    let cv = va + done;
    lemma_mod_add_small(va, done, span(n));
    lemma_mod_nested(cv, n);
    lemma_mod_nested(va, n);
    if cv % e != 0 {
        assert(done == 0);
        lemma_unaligned_chunk(cv, n);
        if va % esize(n + 1) != 0 {
            assert(s <= e - va % e);
        }
    }
    if n < 3 {
        if done > 0 {
            assert(cv % e == 0);
            assert(cv % esize(n + 1) == 0);
        } else if va % e == 0 {
            assert(va % esize(n + 1) == 0);
        } else if va % esize(n + 1) != 0 {
            lemma_splits_exactly_smaller(n + 1, va, s, c);
        }
    }
}

/// The chunk that a mapping takes at `done` lies in one entry, runs to the
/// end of that entry or of the range, and leaves the geometry in order.
#[verifier::rlimit(50)]
#[verifier::spinoff_prover]
proof fn lemma_geom_step(n: int, va: int, s: int, done: int, c: int)
    requires
        geom_state(n, va, s, done),
        done < s,
        done % 0x4000 == 0,
        (va + done) % 0x4000 == 0,
        (s - done) % 0x4000 == 0,
        c == chunk_of(n, va + done, s - done),
        c > 0,
        (va + done) % esize(n) != 0 ==> n < 3,
    ensures
        (va + done) % span(n) == va % span(n) + done,
        (va % span(n) + done) % esize(n) + c <= esize(n),
        done + c == s || (va % span(n) + done) % esize(n) + c == esize(n),
        n < 3 ==> splits_exactly(n + 1, va + done, c),
        geom_state(n, va, s, done + c),
{
    let e = esize(n);
    let cv = va + done;
    lemma_mod_add_small(va, done, span(n));
    lemma_mod_nested(cv, n);
    lemma_mod_nested(va, n);
    if cv % e != 0 {
        assert(done == 0);
        lemma_unaligned_chunk(cv, n);
        if va % esize(n + 1) != 0 {
            assert(s <= e - va % e);
        }
    }
    if n < 3 {
        if done > 0 {
            assert(cv % e == 0);
            assert(cv % esize(n + 1) == 0);
        } else if va % e == 0 {
            assert(va % esize(n + 1) == 0);
        } else if va % esize(n + 1) != 0 {
            lemma_splits_exactly_smaller(n + 1, va, s, c);
        }
    }
    if 0 < done + c < s {
        if cv % e == 0 {
            assert(c == e);
            vstd::arithmetic::div_mod::lemma_mod_add_multiples_vanish(cv, e);
        } else {
            lemma_unaligned_chunk(cv, n);
            assert(done == 0);
            if va % esize(n + 1) != 0 {
                assert(s <= e - va % e);
            }
            lemma_align_up(va, e);
        }
    }
}

/// The chunk that a mapping takes at `done` of a range that is mapped
/// already is mapped already in the one entry it lies in.
#[verifier::rlimit(50)]
#[verifier::spinoff_prover]
proof fn lemma_chunk_remap(t: LevelTable, n: int, va: int, pa: int, s: int, done: int, c: int)
    requires
        geom_state(n, va, s, done),
        already_mapped(t, n, va % span(n), s, pa),
        done < s,
        done % 0x4000 == 0,
        (va + done) % 0x4000 == 0,
        (s - done) % 0x4000 == 0,
        c == chunk_of(n, va + done, s - done),
        c > 0,
        (va + done) % esize(n) != 0 ==> n < 3,
    ensures
        chunk_remap_ok(t, n, va + done, pa + done, c),
        geom_state(n, va, s, done + c),
{
    reveal(chunk_remap_ok);
    lemma_geom_step(n, va, s, done, c);
    let e = esize(n);
    let o0 = va % span(n);
    let cv = va + done;
    lemma_mod_nested(cv, n);
    lemma_mod_nested(va, n);
    let j = table_index(n, cv);
    assert(cv % span(n) == o0 + done);
    assert(o0 + done == j * e + cv % e);
    assert((o0 + done) % e == cv % e);
    assert(0 <= j < 2048);
    if done == 0 {
        assert(j * e <= o0);
    } else {
        assert(cv % e == 0);
        assert(o0 + done == j * e);
    }
    assert(max_int(o0, j * e) == o0 + done);
    assert(min_int(o0 + s, (j + 1) * e) == o0 + done + c);
    assert(t.entries()[j] == t.entries()[table_index(n, va + done)]);
}

proof fn lemma_entry_already_same(x: DescriptorEntry, y: DescriptorEntry, n: int, x0: int, c: int, p: int)
    requires
        same_entries(x, y, n),
        entry_already(y, n, x0, c, p),
    ensures
        entry_already(x, n, x0, c, p),
{
    if !is_leaf(x.spec_bits()) {
        lemma_already_same(x.spec_child().unwrap(), y.spec_child().unwrap(), n + 1, x0, c, p);
    }
}

pub proof fn lemma_conflict_same(a: LevelTable, b: LevelTable, n: int, o0: int, s: int, p: int)
    requires
        same_tables(a, b, n),
        map_conflict(b, n, o0, s, p),
    ensures
        map_conflict(a, n, o0, s, p),
    decreases 3 - n, 1int,
{
    let e = esize(n);
    let j = choose|j: int|
        #![trigger b.entries()[j]]
        touched(n, o0, s, j) && entry_conflict(
            b.entries()[j],
            n,
            max_int(o0, j * e) - j * e,
            min_int(o0 + s, (j + 1) * e) - max_int(o0, j * e),
            p + max_int(o0, j * e) - o0,
        ) && forall|i: int|
            #![trigger b.entries()[i]]
            touched(n, o0, s, i) && i < j ==> entry_already(
                b.entries()[i],
                n,
                max_int(o0, i * e) - i * e,
                min_int(o0 + s, (i + 1) * e) - max_int(o0, i * e),
                p + max_int(o0, i * e) - o0,
            );
    assert(same_entries(a.entries()[j], b.entries()[j], n));
    lemma_entry_conflict_same(
        a.entries()[j],
        b.entries()[j],
        n,
        max_int(o0, j * e) - j * e,
        min_int(o0 + s, (j + 1) * e) - max_int(o0, j * e),
        p + max_int(o0, j * e) - o0,
    );
    assert forall|i: int| touched(n, o0, s, i) && i < j implies entry_already(
        #[trigger] a.entries()[i],
        n,
        max_int(o0, i * e) - i * e,
        min_int(o0 + s, (i + 1) * e) - max_int(o0, i * e),
        p + max_int(o0, i * e) - o0,
    ) by {
        assert(same_entries(a.entries()[i], b.entries()[i], n));
        assert(entry_already(
            b.entries()[i],
            n,
            max_int(o0, i * e) - i * e,
            min_int(o0 + s, (i + 1) * e) - max_int(o0, i * e),
            p + max_int(o0, i * e) - o0,
        ));
        lemma_entry_already_same(
            a.entries()[i],
            b.entries()[i],
            n,
            max_int(o0, i * e) - i * e,
            min_int(o0 + s, (i + 1) * e) - max_int(o0, i * e),
            p + max_int(o0, i * e) - o0,
        );
    }
}

proof fn lemma_entry_conflict_same(x: DescriptorEntry, y: DescriptorEntry, n: int, x0: int, c: int, p: int)
    requires
        same_entries(x, y, n),
        entry_conflict(y, n, x0, c, p),
    ensures
        entry_conflict(x, n, x0, c, p),
    decreases 3 - n, 0int,
{
    if !is_leaf(x.spec_bits()) {
        lemma_conflict_same(x.spec_child().unwrap(), y.spec_child().unwrap(), n + 1, x0, c, p);
    }
}

/// The chunk that a mapping takes at `done`, when what is left runs into a
/// conflict: either the chunk runs into it, or the chunk is mapped already
/// and what is left after it still runs into it.
#[verifier::rlimit(80)]
#[verifier::spinoff_prover]
proof fn lemma_conflict_step(t: LevelTable, n: int, va: int, pa: int, s: int, done: int, c: int)
    requires
        geom_state(n, va, s, done),
        map_conflict(t, n, va % span(n) + done, s - done, pa + done),
        done < s,
        done % 0x4000 == 0,
        (va + done) % 0x4000 == 0,
        (s - done) % 0x4000 == 0,
        c == chunk_of(n, va + done, s - done),
        c > 0,
        (va + done) % esize(n) != 0 ==> n < 3,
    ensures
        geom_state(n, va, s, done + c),
        chunk_conflict_ok(t, n, va + done, pa + done, c) || (chunk_remap_ok(t, n, va + done, pa + done, c)
            && done + c < s && map_conflict(t, n, va % span(n) + done + c, s - done - c, pa + done + c)),
{
    reveal(chunk_remap_ok);
    reveal(chunk_conflict_ok);
    lemma_geom_step(n, va, s, done, c);
    let e = esize(n);
    let o0 = va % span(n);
    let o1 = o0 + done;
    let s1 = s - done;
    let p1 = pa + done;
    let cv = va + done;
    lemma_mod_nested(cv, n);
    lemma_mod_nested(va, n);
    let idx = table_index(n, cv);
    assert(cv % span(n) == o1);
    assert(o1 == idx * e + cv % e);
    assert(0 <= idx < 2048);
    assert(idx * e <= o1 < (idx + 1) * e);
    assert(max_int(o1, idx * e) == o1);
    assert(min_int(o1 + s1, (idx + 1) * e) == o1 + c);
    assert(touched(n, o1, s1, idx));
    let j = choose|j: int|
        #![trigger t.entries()[j]]
        touched(n, o1, s1, j) && entry_conflict(
            t.entries()[j],
            n,
            max_int(o1, j * e) - j * e,
            min_int(o1 + s1, (j + 1) * e) - max_int(o1, j * e),
            p1 + max_int(o1, j * e) - o1,
        ) && forall|i: int|
            #![trigger t.entries()[i]]
            touched(n, o1, s1, i) && i < j ==> entry_already(
                t.entries()[i],
                n,
                max_int(o1, i * e) - i * e,
                min_int(o1 + s1, (i + 1) * e) - max_int(o1, i * e),
                p1 + max_int(o1, i * e) - o1,
            );
    if j < idx {
        assert((j + 1) * e <= idx * e) by (nonlinear_arith)
            requires
                j + 1 <= idx,
                e > 0,
        ;
    }
    assert(j >= idx);
    assert(t.entries()[idx] == t.entries()[table_index(n, va + done)]);
    if j > idx {
        assert(entry_already(t.entries()[idx], n, o1 - idx * e, c, p1));
        assert((idx + 1) * e <= j * e) by (nonlinear_arith)
            requires
                idx + 1 <= j,
                e > 0,
        ;
        assert(o1 + c == (idx + 1) * e);
        let o2 = o1 + c;
        let s2 = s1 - c;
        let p2 = p1 + c;
        assert(touched(n, o2, s2, j));
        assert(max_int(o2, j * e) == j * e && max_int(o1, j * e) == j * e);
        assert(entry_conflict(
            t.entries()[j],
            n,
            max_int(o2, j * e) - j * e,
            min_int(o2 + s2, (j + 1) * e) - max_int(o2, j * e),
            p2 + max_int(o2, j * e) - o2,
        ));
        assert forall|i: int| touched(n, o2, s2, i) && i < j implies entry_already(
            #[trigger] t.entries()[i],
            n,
            max_int(o2, i * e) - i * e,
            min_int(o2 + s2, (i + 1) * e) - max_int(o2, i * e),
            p2 + max_int(o2, i * e) - o2,
        ) by {
            if i < idx + 1 {
                assert((i + 1) * e <= (idx + 1) * e) by (nonlinear_arith)
                    requires
                        i + 1 <= idx + 1,
                        e > 0,
                ;
            }
            assert((idx + 1) * e <= i * e) by (nonlinear_arith)
                requires
                    idx + 1 <= i,
                    e > 0,
            ;
            assert(touched(n, o1, s1, i));
            assert(max_int(o2, i * e) == i * e && max_int(o1, i * e) == i * e);
        }
        assert(map_conflict(t, n, o2, s2, p2));
    } else {
        assert(entry_conflict(t.entries()[idx], n, o1 - idx * e, c, p1));
    }
}

proof fn lemma_loop_step(
    before: LevelTable,
    after: LevelTable,
    old: LevelTable,
    n: int,
    va: int,
    pa: int,
    s: int,
    done: int,
    c: int,
    attr: u64,
    pbo: Option<u64>,
)
    requires
        loop_state(before, old, n, va, pa, s, done, attr, pbo),
        done < s,
        (va + done) % 0x4000 == 0,
        (s - done) % 0x4000 == 0,
        c == chunk_of(n, va + done, s - done),
        c > 0,
        (va + done) % esize(n) != 0 ==> n < 3,
        (va + done) % span(n) == va % span(n) + done,
        pbo matches Some(pb) && mapped_as(
            after,
            before,
            n,
            va % span(n) + done,
            c,
            pa + done,
            attr,
            pb,
        ),
    ensures
        loop_state(after, old, n, va, pa, s, done + c, attr, pbo),
{
    reveal(unmapped);
    reveal(mapped_as);
    reveal(same_translation);
    reveal(unmapped_as);
    reveal(loop_state);
    reveal(chunk_ok);
    let e = esize(n);
    let o0 = va % span(n);
    let pb = pbo.unwrap();
    assert forall|x: int| #![trigger translate(after, n, x)]
        translate(after, n, x) == if o0 <= x < o0 + done + c {
            Some((pa + (x - o0), attr, pb))
        } else {
            translate(old, n, x)
        } by {
        assert(translate(after, n, x) == if o0 + done <= x < o0 + done + c {
            Some((pa + done + (x - (o0 + done)), attr, pb))
        } else {
            translate(before, n, x)
        });
        assert(translate(before, n, x) == if o0 <= x < o0 + done {
            Some((pa + (x - o0), attr, pb))
        } else {
            translate(old, n, x)
        });
    }
    assert forall|x: int| o0 + done + c <= x < o0 + s implies #[trigger] translate(after, n, x)
        is None by {
        assert(translate(after, n, x) == translate(before, n, x));
        assert(translate(before, n, x) is None);
    }
    let cv = va + done;
    if 0 < done + c < s {
        if cv % e == 0 {
            assert(c == e);
            vstd::arithmetic::div_mod::lemma_mod_add_multiples_vanish(cv, e);
        } else {
            lemma_unaligned_chunk(cv, n);
            lemma_mod_nested(cv, n);
            assert(done == 0);
            if va % esize(n + 1) != 0 {
                assert(s <= e - va % e);
            }
            lemma_align_up(va, e);
        }
    }
}

proof fn lemma_loop_error(
    before: LevelTable,
    after: LevelTable,
    old: LevelTable,
    n: int,
    va: int,
    pa: int,
    s: int,
    done: int,
    attr: u64,
    pbo: Option<u64>,
)
    requires
        loop_state(before, old, n, va, pa, s, done, attr, pbo),
        pbo is None,
        same_translation(after, before, n),
    ensures
        same_translation(after, old, n),
        done == 0,
{
    reveal(unmapped);
    reveal(mapped_as);
    reveal(same_translation);
    reveal(unmapped_as);
    reveal(loop_state);
    reveal(chunk_ok);
    assert forall|x: int| #![trigger translate(after, n, x)] translate(after, n, x) == translate(
        old,
        n,
        x,
    ) by {
        assert(translate(after, n, x) == translate(before, n, x));
        assert(translate(before, n, x) == translate(old, n, x));
    }
}

proof fn lemma_loop_done(
    t: LevelTable,
    old: LevelTable,
    n: int,
    va: int,
    pa: int,
    s: int,
    attr: u64,
    pbo: Option<u64>,
)
    requires
        loop_state(t, old, n, va, pa, s, s, attr, pbo),
    ensures
        match pbo {
            Some(pb) => mapped_as(t, old, n, va % span(n), s, pa, attr, pb),
            None => s == 0 && same_translation(t, old, n),
        },
{
    reveal(unmapped);
    reveal(mapped_as);
    reveal(same_translation);
    reveal(unmapped_as);
    reveal(loop_state);
    reveal(chunk_ok);
}

/// Unmapping `[x, x + c)` of entry `e` of a table of level `n` removes
/// exactly that part: the part is the whole entry, or the entry maps
/// nothing, or it owns a table in which the part is removed cleanly, or it
/// is a block that the part starts at, which is split into a table of the
/// next level before the part is removed. Any other part of a page or block
/// descriptor cannot be removed alone.
pub closed spec fn entry_clean(e: DescriptorEntry, n: int, x: int, c: int) -> bool
    decreases 3 - n, 0int,
{
    if x == 0 && c == esize(n) {
        true
    } else if desc_type(e.bits) == DescriptorType::Invalid {
        true
    } else if desc_type(e.bits) == DescriptorType::Block && 0 <= n < 3 && x == 0 && (e.bits & PA_MASK)
        + esize(n) <= 0x1_0000_0000_0000 && canonical_perms(e.bits) {
        true
    } else if desc_type(e.bits) == DescriptorType::Table && 0 <= n < 3 {
        match e.table {
            Some(child) => range_clean(*child, n + 1, x, c),
            None => false,
        }
    } else {
        false
    }
}

/// Every entry of table `t` of level `n` that `[o, o + s)` reaches is
/// unmapped cleanly.
pub closed spec fn range_clean(t: LevelTable, n: int, o: int, s: int) -> bool
    decreases 3 - n, 1int,
{
    forall|j: int|
        0 <= j < 2048 && j * esize(n) < o + s && o < (j + 1) * esize(n) ==> entry_clean(
            #[trigger] t.table@[j],
            n,
            max_int(o, j * esize(n)) - j * esize(n),
            min_int(o + s, (j + 1) * esize(n)) - max_int(o, j * esize(n)),
        )
}

pub open spec fn max_int(a: int, b: int) -> int {
    if a < b {
        b
    } else {
        a
    }
}

pub open spec fn min_int(a: int, b: int) -> int {
    if a < b {
        a
    } else {
        b
    }
}

/// Unmapping `size` bytes from `va` in table `t` of level `n` removes
/// exactly the range, rounded up to whole pages: it stays inside the table,
/// splits exactly at entry boundaries and never cuts a page or block.
pub open spec fn unmap_ok(t: LevelTable, n: int, va: int, size: int) -> bool {
    let s = page_round(size);
    &&& va % span(n) + s <= span(n)
    &&& splits_exactly(n, va, s)
    &&& range_clean(t, n, va % span(n), s)
}

/// The state of an unmapping of `s` bytes from `va` after `done` bytes.
#[verifier::opaque]
pub closed spec fn unmap_state(t: LevelTable, start: LevelTable, n: int, va: int, s: int, done: int) -> bool {
    &&& 0 <= n <= 3
    &&& va >= 0
    &&& va % span(n) + s <= span(n)
    &&& splits_exactly(n, va, s)
    &&& range_clean(start, n, va % span(n), s)
    &&& 0 <= done <= s
    &&& (0 < done < s ==> (va + done) % esize(n) == 0)
    &&& unmapped_as(t, start, n, va % span(n), done)
    &&& t.table@.len() == 2048
    &&& done < s ==> forall|j: int|
        0 <= j < 2048 && (j + 1) * esize(n) > va % span(n) + done ==> #[trigger] t.table@[j]
            == start.table@[j]
}

/// The chunk `[va, va + c)` of an unmapping lies inside one entry, whose
/// part it is removes cleanly.
#[verifier::opaque]
pub closed spec fn unmap_chunk_ok(t: LevelTable, n: int, va: int, c: int) -> bool {
    let o = va % span(n);
    &&& o % esize(n) + c <= esize(n)
    &&& entry_clean(t.table@[o / esize(n)], n, o % esize(n), c)
    &&& n < 3 ==> splits_exactly(n + 1, va, c)
}

proof fn lemma_unmap_init(t: LevelTable, n: int, va: int, size: int)
    requires
        0 <= n <= 3,
        va >= 0,
        size >= 0,
        wf_table(t, n),
        unmap_ok(t, n, va, size),
    ensures
        unmap_state(t, t, n, va, page_round(size), 0),
{
    reveal(unmap_state);
    reveal(unmapped_as);
}

proof fn lemma_unmap_chunk_ok(
    t: LevelTable,
    start: LevelTable,
    n: int,
    va: int,
    s: int,
    done: int,
    c: int,
)
    requires
        unmap_state(t, start, n, va, s, done),
        done < s,
        done % 0x4000 == 0,
        (va + done) % 0x4000 == 0,
        (s - done) % 0x4000 == 0,
        c == chunk_of(n, va + done, s - done),
        (va + done) % esize(n) != 0 ==> n < 3,
    ensures
        unmap_chunk_ok(t, n, va + done, c),
        (va + done) % span(n) == va % span(n) + done,
{
    reveal(unmap_state);
    reveal(unmap_chunk_ok);
    let e = esize(n);
    let cv = va + done;
    let o0 = va % span(n);
    let o = o0 + done;
    lemma_mod_add_small(va, done, span(n));
    lemma_mod_nested(cv, n);
    lemma_mod_nested(va, n);
    let idx = o / e;
    lemma_entry_base(o, o, e);
    if cv % e != 0 {
        assert(done == 0);
        lemma_unaligned_chunk(cv, n);
        if va % esize(n + 1) != 0 {
            assert(s <= e - va % e);
        }
    }
    assert(o % e + c <= e);
    assert(max_int(o0, idx * e) == o);
    assert(min_int(o0 + s, (idx + 1) * e) == o + c);
    assert(start.table@[idx] == t.table@[idx]);
    assert(entry_clean(start.table@[idx], n, o - idx * e, o + c - o));
    if n < 3 {
        if done > 0 {
            assert(cv % esize(n + 1) == 0);
        } else if va % e == 0 {
            assert(va % esize(n + 1) == 0);
        } else if va % esize(n + 1) != 0 {
            lemma_splits_exactly_smaller(n + 1, va, s, c);
        }
    }
}

proof fn lemma_unmap_step(
    before: LevelTable,
    after: LevelTable,
    start: LevelTable,
    n: int,
    va: int,
    s: int,
    done: int,
    c: int,
)
    requires
        unmap_state(before, start, n, va, s, done),
        done < s,
        done % 0x4000 == 0,
        (va + done) % 0x4000 == 0,
        (s - done) % 0x4000 == 0,
        c == chunk_of(n, va + done, s - done),
        c > 0,
        (va + done) % esize(n) != 0 ==> n < 3,
        (va + done) % span(n) == va % span(n) + done,
        after.table@.len() == 2048,
        unmapped_as(after, before, n, va % span(n) + done, c),
        forall|j: int|
            0 <= j < 2048 && j != (va % span(n) + done) / esize(n) ==> #[trigger] after.table@[j]
                == before.table@[j],
    ensures
        unmap_state(after, start, n, va, s, done + c),
{
    reveal(unmap_state);
    reveal(unmapped_as);
    let e = esize(n);
    let o0 = va % span(n);
    let o = o0 + done;
    let cv = va + done;
    assert forall|x: int| #![trigger translate(after, n, x)]
        translate(after, n, x) == if o0 <= x < o0 + done + c {
            None
        } else {
            translate(start, n, x)
        } by {
        assert(translate(after, n, x) == if o <= x < o + c {
            None
        } else {
            translate(before, n, x)
        });
        assert(translate(before, n, x) == if o0 <= x < o0 + done {
            None
        } else {
            translate(start, n, x)
        });
    }
    lemma_mod_nested(cv, n);
    lemma_entry_base(o, o, e);
    if cv % e != 0 {
        lemma_unaligned_chunk(cv, n);
        if va % esize(n + 1) != 0 {
            assert(s <= e - va % e);
        }
    }
    assert(o % e + c <= e);
    if done + c < s {
        assert((o + c) % e == 0) by {
            if cv % e == 0 {
                assert(c == e);
                vstd::arithmetic::div_mod::lemma_mod_add_multiples_vanish(cv, e);
            } else {
                lemma_align_up(va, e);
            }
            lemma_mod_add_small(va, done + c, span(n));
            lemma_mod_nested(va + done + c, n);
        }
        assert forall|j: int| 0 <= j < 2048 && (j + 1) * e > o + c implies #[trigger] after.table@[j]
            == start.table@[j] by {
            if j == o / e {
                lemma_entry_base(o, o, e);
                assert(o + c == (o / e) * e + e);
                assert((j + 1) * e == j * e + e) by (nonlinear_arith);
                assert(false);
            }
            assert(after.table@[j] == before.table@[j]);
            assert((j + 1) * e > o);
        }
    }
    if 0 < done + c < s {
        if cv % e == 0 {
            assert(c == e);
            vstd::arithmetic::div_mod::lemma_mod_add_multiples_vanish(cv, e);
        } else {
            lemma_align_up(va, e);
        }
    }
}

proof fn lemma_unmap_done(t: LevelTable, start: LevelTable, n: int, va: int, s: int)
    requires
        unmap_state(t, start, n, va, s, s),
    ensures
        unmapped_as(t, start, n, va % span(n), s),
{
    reveal(unmap_state);
}

/// Replacing the entry that holds `[o, o + c)` by one that translates the
/// chunk to nothing and the rest of the entry as before unmaps the chunk.
proof fn lemma_entry_unmapped(before: LevelTable, after: LevelTable, n: int, o: int, c: int)
    requires
        0 <= n <= 3,
        0 <= o,
        o % esize(n) + c <= esize(n),
        o + c <= span(n),
        (o / esize(n)) * esize(n) + esize(n) <= span(n),
        0 <= c,
        before.table@.len() == 2048,
        after.table@.len() == 2048,
        forall|j: int| 0 <= j < 2048 && j != o / esize(n) ==> #[trigger] after.table@[j] == before.table@[j],
        forall|x: int|
            0 <= x < esize(n) ==> #[trigger] entry_translate(after.table@[o / esize(n)], n, x) == if o
                % esize(n) <= x < o % esize(n) + c {
                None
            } else {
                entry_translate(before.table@[o / esize(n)], n, x)
            },
    ensures
        unmapped_as(after, before, n, o, c),
{
    reveal(unmapped_as);
    let e = esize(n);
    assert forall|p: int| #![trigger translate(after, n, p)]
        translate(after, n, p) == if o <= p < o + c {
            None
        } else {
            translate(before, n, p)
        } by {
        if 0 <= p < span(n) {
            lemma_translate_unfold(after, n, p);
            lemma_translate_unfold(before, n, p);
            lemma_entry_base(o, p, e);
            lemma_mod_nested(p, n);
            vstd::arithmetic::div_mod::lemma_small_mod(p as nat, span(n) as nat);
            if p / e == o / e {
                assert(entry_translate(after.table@[o / e], n, p % e) == if o % e <= p % e < o % e
                    + c {
                    None
                } else {
                    entry_translate(before.table@[o / e], n, p % e)
                });
            }
        }
    }
}

/// A range just laid out by a mapping can be unmapped cleanly: every entry
/// it reaches is a leaf it covers whole or a table in which it is laid out
/// in turn.
pub proof fn lemma_laid_out_clean(t: LevelTable, old: Seq<DescriptorEntry>, n: int, o: int, s: int, p: int)
    requires
        0 <= n <= 3,
        s > 0,
        laid_out(t, old, n, o, s, p),
    ensures
        range_clean(t, n, o, s),
    decreases 3 - n, 1int,
{
    assert forall|j: int|
        0 <= j < 2048 && j * esize(n) < o + s && o < (j + 1) * esize(n) implies entry_clean(
            #[trigger] t.table@[j],
            n,
            max_int(o, j * esize(n)) - j * esize(n),
            min_int(o + s, (j + 1) * esize(n)) - max_int(o, j * esize(n)),
        ) by {
        let x = max_int(o, j * esize(n)) - j * esize(n);
        let c = min_int(o + s, (j + 1) * esize(n)) - max_int(o, j * esize(n));
        assert(esize(n) > 0);
        assert(j * esize(n) < (j + 1) * esize(n)) by (nonlinear_arith)
            requires
                esize(n) > 0,
        ;
        assert(c > 0);
        assert(t.entries()[j] == t.table@[j]);
        lemma_entry_laid_out_clean(t.table@[j], old[j], n, x, c, p + max_int(o, j * esize(n)) - o);
    }
}

proof fn lemma_entry_laid_out_clean(e: DescriptorEntry, old: DescriptorEntry, n: int, x: int, c: int, p: int)
    requires
        0 <= n <= 3,
        c > 0,
        entry_laid_out(e, old, n, x, c, p),
    ensures
        entry_clean(e, n, x, c),
    decreases 3 - n, 0int,
{
    if (n == 2 || n == 3) && x == 0 && c == esize(n) && desc_type(old.spec_bits()) == DescriptorType::Invalid {
    } else if n < 3 {
        let child = e.spec_child().unwrap();
        lemma_laid_out_clean(child, child_entries(old), n + 1, x, c, p);
    }
}

/// Any page-aligned first part of a range just laid out by a mapping can be
/// unmapped cleanly: the blocks it cuts, it cuts at their start.
pub proof fn lemma_laid_out_clean_prefix(
    t: LevelTable,
    old: Seq<DescriptorEntry>,
    n: int,
    o: int,
    s: int,
    p: int,
    c: int,
)
    requires
        0 <= n <= 3,
        0 <= o,
        0 < c <= s,
        o % 0x4000 == 0,
        c % 0x4000 == 0,
        laid_out(t, old, n, o, s, p),
    ensures
        range_clean(t, n, o, c),
    decreases 3 - n, 1int,
{
    let e = esize(n);
    assert(e > 0 && e % 0x4000 == 0);
    assert forall|j: int|
        0 <= j < 2048 && j * e < o + c && o < (j + 1) * e implies entry_clean(
            #[trigger] t.table@[j],
            n,
            max_int(o, j * e) - j * e,
            min_int(o + c, (j + 1) * e) - max_int(o, j * e),
        ) by {
        let x = max_int(o, j * e) - j * e;
        let c2 = min_int(o + c, (j + 1) * e) - max_int(o, j * e);
        let cf = min_int(o + s, (j + 1) * e) - max_int(o, j * e);
        assert(j * e < (j + 1) * e && (j + 1) * e == j * e + e && (j * e) % 0x4000 == 0 && j * e >= 0)
            by (nonlinear_arith)
            requires
                e > 0,
                e % 0x4000 == 0,
                j >= 0,
        ;
        assert(0 < c2 <= cf);
        assert(x % 0x4000 == 0 && c2 % 0x4000 == 0 && x >= 0);
        assert(t.entries()[j] == t.table@[j]);
        lemma_entry_laid_out_clean_prefix(t.table@[j], old[j], n, x, cf, p + max_int(o, j * e) - o, c2);
    }
}

proof fn lemma_entry_laid_out_clean_prefix(
    e: DescriptorEntry,
    old: DescriptorEntry,
    n: int,
    x: int,
    cf: int,
    p: int,
    c: int,
)
    requires
        0 <= n <= 3,
        0 <= x,
        0 < c <= cf,
        x % 0x4000 == 0,
        c % 0x4000 == 0,
        entry_laid_out(e, old, n, x, cf, p),
    ensures
        entry_clean(e, n, x, c),
    decreases 3 - n, 0int,
{
    if (n == 2 || n == 3) && x == 0 && cf == esize(n) && desc_type(old.spec_bits()) == DescriptorType::Invalid {
    } else if n < 3 {
        let child = e.spec_child().unwrap();
        lemma_laid_out_clean_prefix(child, child_entries(old), n + 1, x, cf, p, c);
    }
}

/// A range just laid out by a mapping is mapped already, to the same output
/// addresses: mapping it again finds nothing to do.
pub proof fn lemma_laid_out_already(t: LevelTable, old: Seq<DescriptorEntry>, n: int, o: int, s: int, p: int)
    requires
        0 <= n <= 3,
        s > 0,
        laid_out(t, old, n, o, s, p),
    ensures
        already_mapped(t, n, o, s, p),
    decreases 3 - n, 1int,
{
    assert forall|j: int|
        #![trigger t.entries()[j]]
        0 <= j < 2048 && j * esize(n) < o + s && o < (j + 1) * esize(n) implies entry_already(
            t.entries()[j],
            n,
            max_int(o, j * esize(n)) - j * esize(n),
            min_int(o + s, (j + 1) * esize(n)) - max_int(o, j * esize(n)),
            p + max_int(o, j * esize(n)) - o,
        ) by {
        let x = max_int(o, j * esize(n)) - j * esize(n);
        let c = min_int(o + s, (j + 1) * esize(n)) - max_int(o, j * esize(n));
        assert(esize(n) > 0);
        assert(j * esize(n) < (j + 1) * esize(n)) by (nonlinear_arith)
            requires
                esize(n) > 0,
        ;
        assert(c > 0);
        lemma_entry_laid_out_already(t.entries()[j], old[j], n, x, c, p + max_int(o, j * esize(n)) - o);
    }
}

proof fn lemma_entry_laid_out_already(e: DescriptorEntry, old: DescriptorEntry, n: int, x: int, c: int, p: int)
    requires
        0 <= n <= 3,
        c > 0,
        entry_laid_out(e, old, n, x, c, p),
    ensures
        entry_already(e, n, x, c, p),
    decreases 3 - n, 0int,
{
    if (n == 2 || n == 3) && x == 0 && c == esize(n) && desc_type(old.spec_bits()) == DescriptorType::Invalid {
    } else if n < 3 {
        let child = e.spec_child().unwrap();
        lemma_laid_out_already(child, child_entries(old), n + 1, x, c, p);
    }
}

/// Mapping a range that was not mapped and then unmapping it gives back the
/// translation that the table had before.
pub proof fn law_unmap_undoes_map(
    t0: LevelTable,
    t1: LevelTable,
    t2: LevelTable,
    n: int,
    o: int,
    s: int,
    pa: int,
    attr: u64,
    pb: u64,
)
    requires
        unmapped(t0, n, o, s),
        mapped_as(t1, t0, n, o, s, pa, attr, pb),
        unmapped_as(t2, t1, n, o, s),
    ensures
        same_translation(t2, t0, n),
{
    reveal(unmapped);
    reveal(mapped_as);
    reveal(unmapped_as);
    reveal(same_translation);
    assert forall|x: int| #![trigger translate(t2, n, x)] translate(t2, n, x) == translate(
        t0,
        n,
        x,
    ) by {
        assert(translate(t2, n, x) == if o <= x < o + s {
            None
        } else {
            translate(t1, n, x)
        });
        assert(translate(t1, n, x) == if o <= x < o + s {
            Some((pa + (x - o), attr, pb))
        } else {
            translate(t0, n, x)
        });
        if o <= x < o + s {
            assert(translate(t0, n, x) is None);
        }
    }
}

/// `size` rounded up to whole pages.
pub open spec fn page_round(size: int) -> int {
    if size % 0x4000 == 0 {
        size
    } else {
        size + 0x4000 - size % 0x4000
    }
}

proof fn lemma_mod_add_small(x: int, d: int, m: int)
    requires
        m > 0,
        0 <= d,
        x % m + d < m,
    ensures
        (x + d) % m == x % m + d,
        (x + d) / m == x / m,
{
    vstd::arithmetic::div_mod::lemma_fundamental_div_mod(x, m);
    assert(x + d == (x / m) * m + (x % m + d)) by (nonlinear_arith)
        requires
            x == m * (x / m) + (x % m),
    ;
    vstd::arithmetic::div_mod::lemma_fundamental_div_mod_converse(x + d, m, x / m, x % m + d);
}

proof fn lemma_mod_nested(x: int, n: int)
    requires
        0 <= n <= 3,
    ensures
        (x % span(n)) % esize(n) == x % esize(n),
        n < 3 ==> (x % esize(n)) % esize(n + 1) == x % esize(n + 1),
        x % span(n) == (x % span(n)) / esize(n) * esize(n) + x % esize(n),
        0 <= (x % span(n)) / esize(n) < 2048,
        (x % span(n)) / esize(n) * esize(n) + esize(n) <= span(n),
{
    let k = span(n) / esize(n);
    assert(span(n) == esize(n) * k);
    vstd::arithmetic::div_mod::lemma_mod_mod(x, esize(n), k);
    if n < 3 {
        assert(esize(n) == esize(n + 1) * (esize(n) / esize(n + 1)));
        vstd::arithmetic::div_mod::lemma_mod_mod(x, esize(n + 1), esize(n) / esize(n + 1));
    }
    let y = x % span(n);
    vstd::arithmetic::div_mod::lemma_fundamental_div_mod(y, esize(n));
    assert(y == (y / esize(n)) * esize(n) + y % esize(n)) by (nonlinear_arith)
        requires
            y == esize(n) * (y / esize(n)) + y % esize(n),
    ;
    assert(0 <= y / esize(n) < 2048) by (nonlinear_arith)
        requires
            0 <= y < span(n),
            span(n) <= 2048 * esize(n),
            esize(n) > 0,
    ;
    assert((y / esize(n)) * esize(n) + esize(n) <= span(n)) by (nonlinear_arith)
        requires
            0 <= y < span(n),
            span(n) == esize(n) * k,
            esize(n) > 0,
            y == (y / esize(n)) * esize(n) + y % esize(n),
            0 <= y % esize(n),
    ;
}

proof fn lemma_splits_exactly_smaller(n: int, va: int, size: int, smaller: int)
    requires
        splits_exactly(n, va, size),
        0 <= smaller <= size,
    ensures
        splits_exactly(n, va, smaller),
    decreases 3 - n,
{
    if !(n >= 3 || n < 0 || va % esize(n) == 0 || va % esize(n + 1) == 0) {
        lemma_splits_exactly_smaller(n + 1, va, size, smaller);
    }
}


proof fn lemma_leaf_bits(p: u64, m: u64, pb: u64)
    requires
        m == 0 || m == 4 || m == 8,
        pb == 0 || pb == 0x40 || pb == 0x80 || pb == 0xC0 || pb == 0x20_0000_0000_0000 || pb
            == 0x20_0000_0000_0040 || pb == 0x20_0000_0000_0080 || pb == 0x20_0000_0000_00C0 || pb
            == 0x40_0000_0000_0000 || pb == 0x40_0000_0000_0040 || pb == 0x40_0000_0000_0080 || pb
            == 0x40_0000_0000_00C0 || pb == 0x60_0000_0000_0000 || pb == 0x60_0000_0000_0040 || pb
            == 0x60_0000_0000_0080 || pb == 0x60_0000_0000_00C0,
    ensures
        ({
            let b = 1u64 | 0x400u64 | (p & 0xFFFF_FFFF_C000u64) | m | 0x200u64 | pb;
            &&& b & 1 != 0
            &&& b & 2 == 0
            &&& b & 0xFFFF_FFFF_C000u64 == p & 0xFFFF_FFFF_C000u64
            &&& (b / 4) % 8 == m / 4
            &&& b & 0x60_0000_0000_00C0u64 == pb
        }),
        ({
            let b = 1u64 | 2u64 | 0x80_0000_0000_0000u64 | 0x400u64 | (p & 0xFFFF_FFFF_C000u64) | m
                | 0x200u64 | pb;
            &&& b & 1 != 0
            &&& b & 2 != 0
            &&& b & 0x80_0000_0000_0000u64 != 0
            &&& b & 0xFFFF_FFFF_C000u64 == p & 0xFFFF_FFFF_C000u64
            &&& (b / 4) % 8 == m / 4
            &&& b & 0x60_0000_0000_00C0u64 == pb
        }),
{
    assert(pb & !0x60_0000_0000_00C0u64 == 0) by (bit_vector)
        requires
            pb == 0 || pb == 0x40 || pb == 0x80 || pb == 0xC0 || pb == 0x20_0000_0000_0000 || pb
                == 0x20_0000_0000_0040 || pb == 0x20_0000_0000_0080 || pb == 0x20_0000_0000_00C0
                || pb == 0x40_0000_0000_0000 || pb == 0x40_0000_0000_0040 || pb
                == 0x40_0000_0000_0080 || pb == 0x40_0000_0000_00C0 || pb == 0x60_0000_0000_0000
                || pb == 0x60_0000_0000_0040 || pb == 0x60_0000_0000_0080 || pb
                == 0x60_0000_0000_00C0,
    ;
    assert({
        let b = 1u64 | 0x400u64 | (p & 0xFFFF_FFFF_C000u64) | m | 0x200u64 | pb;
        &&& b & 1 != 0
        &&& b & 2 == 0
        &&& b & 0xFFFF_FFFF_C000u64 == p & 0xFFFF_FFFF_C000u64
        &&& (b / 4) % 8 == m / 4
        &&& b & 0x60_0000_0000_00C0u64 == pb
    }) by (bit_vector)
        requires
            m == 0 || m == 4 || m == 8,
            pb & !0x60_0000_0000_00C0u64 == 0,
    ;
    assert({
        let b = 1u64 | 2u64 | 0x80_0000_0000_0000u64 | 0x400u64 | (p & 0xFFFF_FFFF_C000u64) | m
            | 0x200u64 | pb;
        &&& b & 1 != 0
        &&& b & 2 != 0
        &&& b & 0x80_0000_0000_0000u64 != 0
        &&& b & 0xFFFF_FFFF_C000u64 == p & 0xFFFF_FFFF_C000u64
        &&& (b / 4) % 8 == m / 4
        &&& b & 0x60_0000_0000_00C0u64 == pb
    }) by (bit_vector)
        requires
            m == 0 || m == 4 || m == 8,
            pb & !0x60_0000_0000_00C0u64 == 0,
    ;
}

proof fn lemma_perm_bits_values(permissions: GlobalPermissions)
    requires
        perm_bits(permissions) is Some,
    ensures
        ({
            let pb = perm_bits(permissions).unwrap();
            pb == 0 || pb == 0x40 || pb == 0x80 || pb == 0xC0 || pb == 0x20_0000_0000_0000 || pb
                == 0x20_0000_0000_0040 || pb == 0x20_0000_0000_0080 || pb == 0x20_0000_0000_00C0
                || pb == 0x40_0000_0000_0000 || pb == 0x40_0000_0000_0040 || pb
                == 0x40_0000_0000_0080 || pb == 0x40_0000_0000_00C0 || pb == 0x60_0000_0000_0000
                || pb == 0x60_0000_0000_0040 || pb == 0x60_0000_0000_0080 || pb
                == 0x60_0000_0000_00C0
        }),
{
}

proof fn lemma_pa_bound(bits: u64)
    ensures
        bits & PA_MASK < 0x1_0000_0000_0000,
        (bits & PA_MASK) % 0x4000 == 0,
{
    assert(bits & 0xFFFF_FFFF_C000u64 <= 0xFFFF_FFFF_C000u64 && (bits & 0xFFFF_FFFF_C000u64) % 0x4000 == 0)
        by (bit_vector);
}

proof fn lemma_small_pa(p: u64)
    requires
        p % 0x4000 == 0,
        p < 0x1_0000_0000_0000,
    ensures
        p & 0xFFFF_FFFF_C000u64 == p,
{
    assert(p & 0xFFFF_FFFF_C000u64 == p) by (bit_vector)
        requires
            p % 0x4000 == 0,
            p < 0x1_0000_0000_0000,
    ;
}

proof fn lemma_wf_set(before: LevelTable, after: LevelTable, n: int, index: int)
    requires
        wf_table(before, n),
        0 <= index < 2048,
        after.table@ == before.table@.update(index, after.table@[index]),
        wf_entry(after.table@[index], n),
    ensures
        wf_table(after, n),
{
    assert forall|i: int| 0 <= i < 2048 implies #[trigger] wf_entry(after.table@[i], n) by {
        if i != index {
            assert(after.table@[i] == before.table@[i]);
            assert(wf_entry(before.table@[i], n));
        }
    }
}

proof fn lemma_translate_unfold(t: LevelTable, n: int, o: int)
    requires
        0 <= n <= 3,
        0 <= o < span(n),
    ensures
        translate(t, n, o) == entry_translate(t.table@[o / esize(n)], n, o % esize(n)),
{
}

proof fn lemma_entry_table(d: DescriptorEntry, n: int, x: int)
    requires
        0 <= n < 3,
        desc_type(d.bits) == DescriptorType::Table,
        d.table is Some,
    ensures
        entry_translate(d, n, x) == translate(*d.table.unwrap(), n + 1, x),
{
}

/// Offsets in the entry that holds `o`.
proof fn lemma_entry_base(o: int, p: int, m: int)
    requires
        m > 0,
        o >= 0,
        p >= 0,
    ensures
        (p / m == o / m) <==> ((o / m) * m <= p < (o / m) * m + m),
        p / m == o / m ==> p % m == p - (o / m) * m,
        o % m == o - (o / m) * m,
{
    vstd::arithmetic::div_mod::lemma_fundamental_div_mod(o, m);
    vstd::arithmetic::div_mod::lemma_fundamental_div_mod(p, m);
    let q = o / m;
    assert(o == q * m + o % m) by (nonlinear_arith)
        requires
            o == m * (o / m) + o % m,
            q == o / m,
    ;
    assert(p == (p / m) * m + p % m) by (nonlinear_arith)
        requires
            p == m * (p / m) + p % m,
    ;
    if q * m <= p < q * m + m {
        vstd::arithmetic::div_mod::lemma_fundamental_div_mod_converse(p, m, q, p - q * m);
    }
    if p / m == q {
        assert(q * m <= p < q * m + m);
    }
}

proof fn lemma_align_up(x: int, m: int)
    requires
        m > 0,
        x >= 0,
    ensures
        (x + (m - x % m)) % m == 0,
{
    vstd::arithmetic::div_mod::lemma_fundamental_div_mod(x, m);
    let q = x / m;
    assert(x + (m - x % m) == (q + 1) * m + 0) by (nonlinear_arith)
        requires
            x == m * (x / m) + x % m,
            q == x / m,
    ;
    vstd::arithmetic::div_mod::lemma_fundamental_div_mod_converse(x + (m - x % m), m, q + 1, 0);
}

proof fn lemma_unaligned_chunk(x: int, n: int)
    requires
        0 <= n < 3,
        x >= 0,
        x % 0x4000 == 0,
    ensures
        ({
            let y = x % esize(n);
            let r = esize(n) - ((x % span(n + 1)) / esize(n + 1)) * esize(n + 1);
            &&& 0 <= (x % span(n + 1)) / esize(n + 1) < 2048
            &&& r >= esize(n) - y
            &&& r <= esize(n)
            &&& r > 0
            &&& r % 0x4000 == 0
            &&& x % esize(n + 1) == 0 ==> r == esize(n) - y
        }),
{
    lemma_mod_nested(x, n);
    lemma_mod_nested(x, n + 1);
    let e = esize(n);
    let e1 = esize(n + 1);
    let y = x % e;
    assert(span(n + 1) == e);
    let q = y / e1;
    assert(y == q * e1 + y % e1);
    assert(y % e1 == x % e1);
    assert(e % 0x4000 == 0 && e1 % 0x4000 == 0);
    vstd::arithmetic::div_mod::lemma_mod_mod(x, 0x4000, e / 0x4000);
    vstd::arithmetic::div_mod::lemma_mod_mod(x, 0x4000, e1 / 0x4000);
    assert(e == 0x4000 * (e / 0x4000));
    assert(e1 == 0x4000 * (e1 / 0x4000));
    let r = e - q * e1;
    assert(r == e - y + x % e1);
    assert(0 <= x % e1 < e1);
    assert(y % 0x4000 == 0 && (x % e1) % 0x4000 == 0);
    assert(r % 0x4000 == 0) by {
        vstd::arithmetic::div_mod::lemma_fundamental_div_mod(y, 0x4000);
        vstd::arithmetic::div_mod::lemma_fundamental_div_mod(x % e1, 0x4000);
        let a = y / 0x4000;
        let b = (x % e1) / 0x4000;
        let k = e / 0x4000;
        assert(r == (k - a + b) * 0x4000) by (nonlinear_arith)
            requires
                r == e - y + x % e1,
                y == 0x4000 * a,
                x % e1 == 0x4000 * b,
                e == 0x4000 * k,
        ;
        vstd::arithmetic::div_mod::lemma_mod_multiples_basic(k - a + b, 0x4000);
    }
}

/// Mapping one whole entry of the table with a leaf descriptor extends the
/// mapped range by that entry.
proof fn lemma_leaf_step(
    before: LevelTable,
    after: LevelTable,
    old: LevelTable,
    n: int,
    index: int,
    o0: int,
    done: int,
    rem: int,
    pa: int,
    attr: u64,
    pb: u64,
)
    requires
        0 <= n <= 3,
        0 <= o0,
        0 <= done,
        (o0 + done) % esize(n) == 0,
        index == (o0 + done) / esize(n),
        esize(n) <= rem,
        o0 + done + rem <= span(n),
        before.table@.len() == 2048,
        after.table@ == before.table@.update(index, after.table@[index]),
        is_leaf(after.table@[index].bits),
        after.table@[index].bits & PA_MASK == pa + done,
        attr_index_of(after.table@[index].bits) == attr,
        after.table@[index].bits & PERM_MASK == pb,
        mapped_as(before, old, n, o0, done, pa, attr, pb),
        unmapped(before, n, o0 + done, rem),
    ensures
        mapped_as(after, old, n, o0, done + esize(n), pa, attr, pb),
        unmapped(after, n, o0 + done + esize(n), rem - esize(n)),
{
    reveal(unmapped);
    reveal(mapped_as);
    reveal(same_translation);
    reveal(unmapped_as);
    let e = esize(n);
    let o = o0 + done;
    assert forall|p: int| #![trigger translate(after, n, p)]
        translate(after, n, p) == if o0 <= p < o0 + done + e {
            Some((pa + (p - o0), attr, pb))
        } else {
            translate(old, n, p)
        } by {
        assert(translate(before, n, p) == if o0 <= p < o0 + done {
            Some((pa + (p - o0), attr, pb))
        } else {
            translate(old, n, p)
        });
        if 0 <= p < span(n) {
            lemma_translate_unfold(after, n, p);
            lemma_translate_unfold(before, n, p);
            lemma_entry_base(o, p, e);
            if p / e == index {
                assert(o <= p < o + e);
            } else {
                assert(after.table@[p / e] == before.table@[p / e]);
                assert(!(o <= p < o + e));
                if o0 + done <= p < o0 + done + rem {
                    assert(translate(before, n, p) is None);
                }
            }
        }
    }
    assert forall|p: int| o + e <= p < o + rem implies #[trigger] translate(after, n, p) is None by {
        assert(translate(before, n, p) is None);
        lemma_translate_unfold(after, n, p);
        lemma_translate_unfold(before, n, p);
        lemma_entry_base(o, p, e);
    }
}

/// The part of the chunk that falls in the entry's table of the next level
/// is not mapped.
proof fn lemma_child_unmapped(
    before: LevelTable,
    mid: LevelTable,
    n: int,
    index: int,
    o: int,
    c: int,
    rem: int,
)
    requires
        0 <= n < 3,
        0 <= o,
        index == o / esize(n),
        o % esize(n) + c <= esize(n),
        0 < c <= rem,
        o + rem <= span(n),
        before.table@.len() == 2048,
        unmapped(before, n, o, rem),
        desc_type(mid.table@[index].bits) == DescriptorType::Table,
        mid.table@[index].table is Some,
        mid.table@ == before.table@ || forall|x: int|
            #![trigger translate(*mid.table@[index].table.unwrap(), n + 1, x)]
            translate(*mid.table@[index].table.unwrap(), n + 1, x) is None,
    ensures
        unmapped(*mid.table@[index].table.unwrap(), n + 1, o % esize(n), c),
{
    reveal(unmapped);
    reveal(mapped_as);
    reveal(same_translation);
    reveal(unmapped_as);
    let e = esize(n);
    let child = *mid.table@[index].table.unwrap();
    assert forall|x: int| o % e <= x < o % e + c implies #[trigger] translate(child, n + 1, x)
        is None by {
        if mid.table@ == before.table@ {
            let p = (o / e) * e + x;
            lemma_entry_base(o, p, e);
            assert(p / e == o / e);
            assert(o <= p < o + c);
            assert(translate(before, n, p) is None);
            lemma_translate_unfold(before, n, p);
            lemma_entry_table(mid.table@[index], n, x);
        }
    }
}

/// Mapping a chunk inside the table of the next level that an entry owns
/// extends the mapped range by the chunk; failing leaves the translation as
/// it was.
proof fn lemma_table_step(
    before: LevelTable,
    mid: LevelTable,
    after: LevelTable,
    old: LevelTable,
    child_before: LevelTable,
    child_after: LevelTable,
    n: int,
    index: int,
    o0: int,
    done: int,
    c: int,
    rem: int,
    pa: int,
    attr: u64,
    pbo: Option<u64>,
)
    requires
        0 <= n < 3,
        0 <= o0,
        0 <= done,
        index == (o0 + done) / esize(n),
        (o0 + done) % esize(n) + c <= esize(n),
        0 < c <= rem,
        o0 + done + rem <= span(n),
        before.table@.len() == 2048,
        mid.table@.len() == 2048,
        mid.table@ == before.table@ || (mid.table@ == before.table@.update(index, mid.table@[index])
            && desc_type(before.table@[index].bits) == DescriptorType::Invalid && forall|x: int|
            #![trigger translate(child_before, n + 1, x)]
            translate(child_before, n + 1, x) is None),
        desc_type(mid.table@[index].bits) == DescriptorType::Table,
        mid.table@[index].table == Some(Box::new(child_before)),
        after.table@ == mid.table@.update(
            index,
            DescriptorEntry { bits: mid.table@[index].bits, table: Some(Box::new(child_after)) },
        ),
        pbo matches Some(pb) ==> mapped_as(
            child_after,
            child_before,
            n + 1,
            (o0 + done) % esize(n),
            c,
            pa + done,
            attr,
            pb,
        ),
        pbo is None ==> same_translation(child_after, child_before, n + 1),
        pbo matches Some(pb) ==> mapped_as(before, old, n, o0, done, pa, attr, pb),
        unmapped(before, n, o0 + done, rem),
    ensures
        pbo matches Some(pb) ==> mapped_as(after, old, n, o0, done + c, pa, attr, pb),
        pbo is Some ==> unmapped(after, n, o0 + done + c, rem - c),
        pbo is None ==> same_translation(after, before, n),
{
    reveal(unmapped);
    reveal(mapped_as);
    reveal(same_translation);
    reveal(unmapped_as);
    let e = esize(n);
    let o = o0 + done;
    let base = (o / e) * e;
    let entry = after.table@[index];
    assert(entry.table == Some(Box::new(child_after)));
    assert forall|p: int| #![trigger translate(after, n, p)] 0 <= p < span(n) && p / e == index
        implies translate(after, n, p) == translate(child_after, n + 1, p % e) && translate(
        mid,
        n,
        p,
    ) == translate(child_before, n + 1, p % e) && translate(mid, n, p) == translate(before, n, p)
        by {
        lemma_translate_unfold(after, n, p);
        lemma_translate_unfold(mid, n, p);
        lemma_translate_unfold(before, n, p);
        lemma_entry_table(entry, n, p % e);
        lemma_entry_table(mid.table@[index], n, p % e);
        if mid.table@ != before.table@ {
            assert(translate(child_before, n + 1, p % e) is None);
        }
    }
    assert forall|p: int| #![trigger translate(after, n, p)] !(0 <= p < span(n) && p / e == index)
        implies translate(after, n, p) == translate(before, n, p) by {
        if 0 <= p < span(n) {
            lemma_translate_unfold(after, n, p);
            lemma_translate_unfold(before, n, p);
            assert(after.table@[p / e] == before.table@[p / e]);
        }
    }
    if let Some(pb) = pbo {
        assert forall|p: int| #![trigger translate(after, n, p)]
            translate(after, n, p) == if o0 <= p < o0 + done + c {
                Some((pa + (p - o0), attr, pb))
            } else {
                translate(old, n, p)
            } by {
            assert(translate(before, n, p) == if o0 <= p < o0 + done {
                Some((pa + (p - o0), attr, pb))
            } else {
                translate(old, n, p)
            });
            if p >= 0 {
                lemma_entry_base(o, p, e);
            }
            if 0 <= p < span(n) && p / e == index {
                assert(translate(child_after, n + 1, p % e) == if o % e <= p % e < o % e + c {
                    Some((pa + done + (p % e - o % e), attr, pb))
                } else {
                    translate(child_before, n + 1, p % e)
                });
                assert((o <= p < o + c) == (o % e <= p % e < o % e + c));
                if o0 <= p < o0 + done {
                    assert(p < o);
                } else if o <= p < o + rem {
                    assert(translate(before, n, p) is None);
                }
            } else {
                if o0 + done <= p < o0 + done + c {
                    assert(p / e == index);
                }
            }
        }
        assert forall|p: int| o + c <= p < o + rem implies #[trigger] translate(after, n, p)
            is None by {
            assert(translate(before, n, p) is None);
            lemma_entry_base(o, p, e);
            if p < span(n) && p / e == index {
                assert(translate(child_after, n + 1, p % e) == if o % e <= p % e < o % e + c {
                    Some((pa + done + (p % e - o % e), attr, pb))
                } else {
                    translate(child_before, n + 1, p % e)
                });
            }
        }
    } else {
        assert forall|p: int| #![trigger translate(after, n, p)]
            translate(after, n, p) == translate(before, n, p) by {
            if 0 <= p < span(n) && p / e == index {
                assert(translate(child_after, n + 1, p % e) == translate(
                    child_before,
                    n + 1,
                    p % e,
                ));
            }
        }
    }
}

impl DescriptorEntry {
    pub closed spec fn spec_bits(&self) -> u64 {
        self.bits
    }

    /// The table of the next level that the descriptor owns.
    pub closed spec fn spec_child(&self) -> Option<LevelTable> {
        match self.table {
            Some(c) => Some(*c),
            None => None,
        }
    }

    pub fn new_invalid() -> (entry: Self)
        ensures
            desc_type(entry.spec_bits()) == DescriptorType::Invalid,
            entry.spec_child() is None,
            entry.spec_bits() == 0,
    {
        assert(0u64 & 1 == 0) by (bit_vector);
        Self { bits: 0, table: None }
    }

    /// A table descriptor that owns a fresh table of level `n`.
    fn new_table_desc(Ghost(n): Ghost<int>) -> (entry: Self)
        requires
            1 <= n <= 3,
        ensures
            desc_type(entry.bits) == DescriptorType::Table,
            entry.table matches Some(c) && wf_table(*c, n) && forall|o: int|
                #![trigger translate(*c, n, o)]
                translate(*c, n, o) is None,
            entry.table matches Some(c) && c.table@ == blank_entries(),
    {
        assert((1u64 | 2u64) & 1 != 0 && (1u64 | 2u64) & 2 != 0 && (1u64 | 2u64)
            & 0x80_0000_0000_0000u64 == 0) by (bit_vector);
        let table = LevelTable::new_at(Ghost(n));
        Self { bits: VALID_BIT | TABLE_BIT, table: Some(Box::new(table)) }
    }

    fn new_block_desc(
        physical_addr: u64,
        attributes: Attributes,
        permissions: GlobalPermissions,
    ) -> (result: Result<Self, Error>)
        ensures
            match perm_bits(permissions) {
                None => result matches Err(Error::InvalidPermissions),
                Some(pb) => result matches Ok(e) && desc_type(e.bits) == DescriptorType::Block
                    && e.table is None && e.bits & PA_MASK == physical_addr & PA_MASK
                    && attr_index_of(e.bits) == attributes_index(attributes) && e.bits & PERM_MASK
                    == pb,
            },
    {
        let perm = match permission_bits(permissions) {
            Ok(p) => p,
            Err(e) => {
                return Err(e);
            },
        };
        let m = mair_index_from_attrs(attributes);
        proof {
            lemma_perm_bits_values(permissions);
            lemma_leaf_bits(physical_addr, m, perm);
        }
        Ok(
            Self {
                bits: VALID_BIT | ACCESS_FLAG | (physical_addr & PA_MASK) | m | SHAREABILITY | perm,
                table: None,
            },
        )
    }

    fn new_page_desc(
        physical_addr: u64,
        attributes: Attributes,
        permissions: GlobalPermissions,
    ) -> (result: Result<Self, Error>)
        ensures
            match perm_bits(permissions) {
                None => result matches Err(Error::InvalidPermissions),
                Some(pb) => result matches Ok(e) && desc_type(e.bits) == DescriptorType::Page
                    && e.table is None && e.bits & PA_MASK == physical_addr & PA_MASK
                    && attr_index_of(e.bits) == attributes_index(attributes) && e.bits & PERM_MASK
                    == pb,
            },
    {
        let perm = match permission_bits(permissions) {
            Ok(p) => p,
            Err(e) => {
                return Err(e);
            },
        };
        let m = mair_index_from_attrs(attributes);
        proof {
            lemma_perm_bits_values(permissions);
            lemma_leaf_bits(physical_addr, m, perm);
        }
        Ok(
            Self {
                bits: VALID_BIT | TABLE_BIT | PAGE_BIT | ACCESS_FLAG | (physical_addr & PA_MASK) | m
                    | SHAREABILITY | perm,
                table: None,
            },
        )
    }

    pub fn ty(&self) -> (ty: DescriptorType)
        ensures
            ty == desc_type(self.spec_bits()),
    {
        if (self.bits & VALID_BIT) == 0 {
            DescriptorType::Invalid
        } else if (self.bits & TABLE_BIT) == 0 {
            DescriptorType::Block
        } else if (self.bits & PAGE_BIT) == 0 {
            DescriptorType::Table
        } else {
            DescriptorType::Page
        }
    }

    /// The output address of a page or block descriptor.
    pub fn pa(&self) -> (pa: Option<PhysicalAddress>)
        ensures
            is_leaf(self.spec_bits()) ==> (pa matches Some(p) && p.addr() == self.spec_bits()
                & PA_MASK),
            !is_leaf(self.spec_bits()) ==> pa is None,
    {
        match self.ty() {
            DescriptorType::Page | DescriptorType::Block => Some(
                PhysicalAddress::new_unchecked(self.bits & PA_MASK),
            ),
            _ => None,
        }
    }

    /// The memory attributes of a page or block descriptor.
    pub fn attrs(&self) -> (attrs: Option<Attributes>)
        requires
            is_leaf(self.spec_bits()) ==> attr_index_of(self.spec_bits()) <= 2,
        ensures
            is_leaf(self.spec_bits()) ==> (attrs matches Some(a) && attributes_from_index(
                attr_index_of(self.spec_bits()),
            ) == Ok::<Attributes, ()>(a)),
            !is_leaf(self.spec_bits()) ==> attrs is None,
    {
        match self.ty() {
            DescriptorType::Page | DescriptorType::Block => match attributes_from_mapping(
                self.bits,
            ) {
                Ok(a) => Some(a),
                Err(_) => None,
            },
            _ => None,
        }
    }

    /// The permissions of a page or block descriptor.
    pub fn permissions(&self) -> (permissions: Option<GlobalPermissions>)
        ensures
            is_leaf(self.spec_bits()) ==> permissions == Some(mapping_permissions(self.spec_bits())),
            !is_leaf(self.spec_bits()) ==> permissions is None,
    {
        match self.ty() {
            DescriptorType::Page | DescriptorType::Block => Some(
                permissions_from_mapping(self.bits),
            ),
            _ => None,
        }
    }

    /// The table of the next level that a table descriptor owns.
    pub fn get_table(&self) -> (table: Option<&LevelTable>)
        ensures
            desc_type(self.spec_bits()) == DescriptorType::Table ==> match table {
                Some(t) => self.spec_child() == Some(*t),
                None => self.spec_child() is None,
            },
            desc_type(self.spec_bits()) != DescriptorType::Table ==> table is None,
    {
        match self.ty() {
            DescriptorType::Table => match &self.table {
                Some(c) => Some(&**c),
                None => None,
            },
            _ => None,
        }
    }
}

impl LevelTable {
    /// The descriptors.
    pub closed spec fn entries(&self) -> Seq<DescriptorEntry> {
        self.table@
    }

    /// An empty table of level `n`.
    fn new_at(Ghost(n): Ghost<int>) -> (table: Self)
        requires
            0 <= n <= 3,
        ensures
            wf_table(table, n),
            forall|o: int| #![trigger translate(table, n, o)] translate(table, n, o) is None,
            forall|i: int| 0 <= i < 2048 ==> desc_type(#[trigger] table.table@[i].bits)
                == DescriptorType::Invalid,
            table.table@ == blank_entries(),
    {
        let mut table: Vec<DescriptorEntry> = Vec::new();
        let mut i: usize = 0;
        while i < 2048
            invariant
                table@.len() == i,
                i <= 2048,
                forall|j: int| 0 <= j < i ==> desc_type(#[trigger] table@[j].bits)
                    == DescriptorType::Invalid && table@[j].table is None,
                forall|j: int| 0 <= j < i ==> #[trigger] table@[j] == blank_entries()[j],
            decreases 2048 - i,
        {
            table.push(DescriptorEntry::new_invalid());
            i = i + 1;
        }
        assert(table@ =~= blank_entries());
        let t = Self { table };
        assert forall|i: int| 0 <= i < 2048 implies #[trigger] wf_entry(t.table@[i], n) by {}
        assert forall|o: int| #![trigger translate(t, n, o)] translate(t, n, o) is None by {
            if 0 <= o < span(n) {
                lemma_mod_nested(o, n);
                vstd::arithmetic::div_mod::lemma_small_mod(o as nat, span(n) as nat);
            }
        }
        t
    }

    /// An empty top-level table.
    pub fn new() -> (table: Self)
        ensures
            wf_table(table, 0),
            forall|o: int| #![trigger translate(table, 0, o)] translate(table, 0, o) is None,
            forall|i: int| 0 <= i < 2048 ==> desc_type(#[trigger] table.entries()[i].spec_bits())
                == DescriptorType::Invalid,
            all_invalid(table),
            table.entries() == blank_entries(),
            table.entries().len() == 2048,
    {
        Self::new_at(Ghost(0))
    }

    /// The descriptor at `index`.
    pub fn entry(&self, index: usize) -> (entry: &DescriptorEntry)
        requires
            index < self.entries().len(),
        ensures
            *entry == self.entries()[index as int],
    {
        &self.table[index]
    }

    /// Maps one chunk `[va, va + chunk)` that lies inside one entry of this
    /// table of level `level`: with a leaf descriptor when the chunk is the
    /// whole entry and the level allows it, else in the table of the next
    /// level. An entry that already maps is left alone when it maps to `pa`
    /// and is an error otherwise.
    #[verifier::rlimit(100)]
    fn map_chunk(
        &mut self,
        va: u64,
        pa: u64,
        chunk: u64,
        attributes: Attributes,
        permissions: GlobalPermissions,
        level: TranslationLevel,
    ) -> (result: Result<(), Error>)
        requires
            wf_table(*old(self), level_num(level)),
            va % 0x4000 == 0,
            chunk % 0x4000 == 0,
            0 < chunk <= esize(level_num(level)),
            pa + chunk <= 0x1_0000_0000_0000_0000,
            va + chunk <= 0x1_0000_0000_0000_0000,
            va as int % esize(level_num(level)) != 0 ==> level_num(level) < 3,
        ensures
            wf_table(*final(self), level_num(level)),
            chunk_ok(*old(self), level_num(level), va as int, pa as int, chunk as int) ==> match perm_bits(permissions) {
                Some(pb) => result is Ok && mapped_as(
                    *final(self),
                    *old(self),
                    level_num(level),
                    va as int % span(level_num(level)),
                    chunk as int,
                    pa as int,
                    attributes_index(attributes),
                    pb,
                ),
                None => (result matches Err(Error::InvalidPermissions)) && same_translation(
                    *final(self),
                    *old(self),
                    level_num(level),
                ),
            },
            forall|j: int|
                0 <= j < 2048 && j != table_index(level_num(level), va as int) ==> #[trigger] final(self).table@[j]
                    == old(self).table@[j],
            chunk_ok(*old(self), level_num(level), va as int, pa as int, chunk as int) && perm_bits(permissions) is Some
                ==> entry_laid_out(
                final(self).table@[table_index(level_num(level), va as int)],
                old(self).table@[table_index(level_num(level), va as int)],
                level_num(level),
                va as int % esize(level_num(level)),
                chunk as int,
                pa as int,
            ),
            chunk_remap_ok(*old(self), level_num(level), va as int, pa as int, chunk as int) ==> result is Ok
                && same_tables(*final(self), *old(self), level_num(level)),
            chunk_conflict_ok(*old(self), level_num(level), va as int, pa as int, chunk as int) ==> (result matches Err(
                Error::OverlapsExistingMapping(_, _),
            )) && same_tables(*final(self), *old(self), level_num(level)),
        decreases 3 - level_num(level), 0int,
    {
        let ghost n = level_num(level);
        let ghost e = esize(n);
        let ghost o = va as int % span(n);
        let ghost law = chunk_ok(*old(self), n, va as int, pa as int, chunk as int);
        let ghost pbo = perm_bits(permissions);
        let ghost attr = attributes_index(attributes);
        let ghost before = *self;
        let ghost rem = chunk_remap_ok(before, n, va as int, pa as int, chunk as int);
        let ghost cf = chunk_conflict_ok(before, n, va as int, pa as int, chunk as int);
        proof {
            reveal(chunk_remap_ok);
            reveal(chunk_conflict_ok);
            lemma_same_refl(before, n);
            reveal(chunk_ok);
            reveal(unmapped);
            reveal(mapped_as);
            lemma_mod_nested(va as int, n);
        }
        let entry_size = level.entry_size();
        let index = level.table_index_for_addr(va);
        let aligned = level.is_address_aligned(va);
        let ty = self.table[index].ty();
        if matches!(ty, DescriptorType::Block | DescriptorType::Page) {
            proof {
                if law {
                    reveal(chunk_ok);
                    reveal(unmapped);
                    lemma_translate_unfold(*self, n, o);
                    assert(translate(*self, n, o) is None);
                }
            }
            match self.table[index].pa() {
                Some(existing) => {
                    if existing.as_u64() != pa {
                        return Err(
                            Error::OverlapsExistingMapping(VirtualAddress::new_unchecked(va), level),
                        );
                    }
                },
                None => {},
            }
            return Ok(());
        }
        if aligned && chunk == entry_size && (level.supports_block_descriptors() || level.is_last())
            && !matches!(ty, DescriptorType::Table) {
            let desc = if level.is_last() {
                DescriptorEntry::new_page_desc(pa, attributes, permissions)
            } else {
                DescriptorEntry::new_block_desc(pa, attributes, permissions)
            };
            let desc = match desc {
                Ok(d) => d,
                Err(err) => {
                    proof {
                        reveal(same_translation);
                    }
                    return Err(err);
                },
            };
            self.table.set(index, desc);
            proof {
                assert(wf_entry(desc, n));
                lemma_wf_set(before, *self, n, index as int);
                if pbo is Some {
                    lemma_canonical_perms(desc.bits, permissions);
                }
                if law {
                    reveal(chunk_ok);
                    assert(pa + chunk <= 0x1_0000_0000_0000);
                    reveal(chunk_ok);
                    reveal(mapped_as);
                    lemma_small_pa(pa);
                    lemma_leaf_step(
                        before,
                        *self,
                        before,
                        n,
                        index as int,
                        o,
                        0,
                        chunk as int,
                        pa as int,
                        attr,
                        pbo.unwrap(),
                    );
                }
            }
            return Ok(());
        }
        proof {
            if n == 3 {
                assert(wf_entry(self.table@[index as int], n));
                assert(false);
            }
        }
        if matches!(ty, DescriptorType::Invalid) {
            self.table.set(index, DescriptorEntry::new_table_desc(Ghost(n + 1)));
        }
        let ghost mid = *self;
        let ghost mid_entry = self.table@[index as int];
        proof {
            assert(wf_entry(mid_entry, n));
        }
        let taken = self.table[index].table.take();
        let mut child = match taken {
            Some(c) => c,
            None => {
                proof {
                    assert(false);
                }
                return Err(Error::InvalidPermissions);
            },
        };
        let ghost child_before = *child;
        proof {
            assert(wf_table(child_before, n + 1));
            lemma_mod_nested(va as int, n + 1);
            if rem {
                assert(mid == before);
                assert(child_before == before.table@[index as int].spec_child().unwrap());
                assert(page_round(chunk as int) == chunk as int);
                assert(span(n + 1) == e);
                assert(remap_ok(child_before, n + 1, va as int, pa as int, chunk as int));
            }
            if cf {
                assert(mid == before);
                assert(child_before == before.table@[index as int].spec_child().unwrap());
                assert(page_round(chunk as int) == chunk as int);
                assert(span(n + 1) == e);
                assert(conflict_ok(child_before, n + 1, va as int, pa as int, chunk as int));
            }
            if law {
                reveal(chunk_ok);
                reveal(unmapped);
                lemma_child_unmapped(before, mid, n, index as int, o, chunk as int, chunk as int);
                assert(map_ok(child_before, n + 1, va as int, pa as int, chunk as int));
            }
        }
        let r = child.map_region_internal(va, pa, chunk, attributes, permissions, level.next());
        let ghost child_after = *child;
        self.table[index].table = Some(child);
        proof {
            assert(self.table@[index as int] == (DescriptorEntry {
                bits: mid_entry.bits,
                table: Some(Box::new(child_after)),
            }));
            assert(self.table@ =~= mid.table@.update(
                index as int,
                DescriptorEntry { bits: mid_entry.bits, table: Some(Box::new(child_after)) },
            ));
            assert(wf_entry(self.table@[index as int], n));
            assert(self.table@ =~= before.table@.update(index as int, self.table@[index as int]));
            lemma_wf_set(before, *self, n, index as int);
            if law {
                reveal(chunk_ok);
                reveal(mapped_as);
                lemma_table_step(
                    before,
                    mid,
                    *self,
                    before,
                    child_before,
                    child_after,
                    n,
                    index as int,
                    o,
                    0,
                    chunk as int,
                    chunk as int,
                    pa as int,
                    attr,
                    pbo,
                );
            }
            if rem || cf {
                assert(same_tables(child_after, child_before, n + 1));
                assert forall|j: int| 0 <= j < self.entries().len() implies same_entries(
                    #[trigger] self.entries()[j],
                    before.entries()[j],
                    n,
                ) by {
                    if j != index {
                        assert(self.table@[j] == before.table@[j]);
                        assert(same_entries(before.entries()[j], before.entries()[j], n));
                    } else {
                        assert(mid_entry == before.table@[j]);
                    }
                }
            }
        }
        r
    }

    /// One step of a mapping of `s` bytes from `va` to `pa`: maps the chunk
    /// that starts at `cur_va` and answers its size.
    #[verifier::rlimit(100)]
    fn map_step(
        &mut self,
        va: u64,
        pa: u64,
        cur_va: u64,
        cur_pa: u64,
        remaining: u64,
        attributes: Attributes,
        permissions: GlobalPermissions,
        level: TranslationLevel,
        Ghost(start): Ghost<LevelTable>,
        Ghost(s): Ghost<int>,
        Ghost(law): Ghost<bool>,
    ) -> (result: Result<u64, Error>)
        requires
            wf_table(*old(self), level_num(level)),
            0 < remaining <= s,
            s % 0x4000 == 0,
            remaining % 0x4000 == 0,
            cur_va == va + (s - remaining),
            cur_pa == pa + (s - remaining),
            va + s <= 0x1_0000_0000_0000_0000,
            pa + s <= 0x1_0000_0000_0000_0000,
            va % 0x4000 == 0,
            law ==> loop_state(
                *old(self),
                start,
                level_num(level),
                va as int,
                pa as int,
                s,
                s - remaining,
                attributes_index(attributes),
                perm_bits(permissions),
            ),
        ensures
            wf_table(*final(self), level_num(level)),
            result matches Ok(c) ==> 0 < c <= remaining && c % 0x4000 == 0,
            law ==> match result {
                Ok(c) => loop_state(
                    *final(self),
                    start,
                    level_num(level),
                    va as int,
                    pa as int,
                    s,
                    s - remaining + c,
                    attributes_index(attributes),
                    perm_bits(permissions),
                ),
                Err(e) => e matches Error::InvalidPermissions && perm_bits(permissions) is None
                    && same_translation(*final(self), start, level_num(level)),
            },
            law && perm_bits(permissions) is Some && laid_out(
                *old(self),
                start.table@,
                level_num(level),
                va as int % span(level_num(level)),
                s - remaining,
                pa as int,
            ) ==> (result matches Ok(c) ==> laid_out(
                *final(self),
                start.table@,
                level_num(level),
                va as int % span(level_num(level)),
                s - remaining + c,
                pa as int,
            )),
            remap_state(*old(self), start, level_num(level), va as int, pa as int, s, s - remaining) ==> (
            result matches Ok(c) && remap_state(
                *final(self),
                start,
                level_num(level),
                va as int,
                pa as int,
                s,
                s - remaining + c,
            )),
            conflict_state(*old(self), start, level_num(level), va as int, pa as int, s, s - remaining) ==> (
            (result matches Err(Error::OverlapsExistingMapping(_, _)) && same_tables(
                *final(self),
                start,
                level_num(level),
            )) || (result matches Ok(c) && conflict_state(
                *final(self),
                start,
                level_num(level),
                va as int,
                pa as int,
                s,
                s - remaining + c,
            ))),
        decreases 3 - level_num(level), 1int,
    {
        let ghost n = level_num(level);
        let ghost e = esize(n);
        let ghost done = s - remaining;
        let ghost v = va + done;
        let ghost before = *self;
        let ghost attr = attributes_index(attributes);
        let ghost pbo = perm_bits(permissions);
        proof {
            lemma_mod_nested(cur_va as int, n);
            if n == 3 {
                assert(cur_va as int % e == 0);
            }
            assert(cur_va % 0x4000 == 0);
        }
        let chunk = level.chunk_size(cur_va, remaining);
        let ghost rs = remap_state(before, start, n, va as int, pa as int, s, done);
        let ghost cs = conflict_state(before, start, n, va as int, pa as int, s, done);
        proof {
            if cs {
                reveal(conflict_state);
                reveal(chunk_remap_ok);
                reveal(chunk_conflict_ok);
                lemma_conflict_step(start, n, va as int, pa as int, s, done, chunk as int);
                lemma_mod_nested(cur_va as int, n);
                let idx = table_index(n, cur_va as int);
                assert(0 <= idx < 2048);
                assert(same_entries(before.entries()[idx], start.entries()[idx], n));
                if chunk_conflict_ok(start, n, cur_va as int, cur_pa as int, chunk as int) {
                    lemma_entry_conflict_same(
                        before.entries()[idx],
                        start.entries()[idx],
                        n,
                        cur_va as int % e,
                        chunk as int,
                        cur_pa as int,
                    );
                } else {
                    lemma_entry_already_same(
                        before.entries()[idx],
                        start.entries()[idx],
                        n,
                        cur_va as int % e,
                        chunk as int,
                        cur_pa as int,
                    );
                }
            }
            if rs {
                reveal(remap_state);
                lemma_already_same(before, start, n, va as int % span(n), s, pa as int);
                lemma_chunk_remap(before, n, va as int, pa as int, s, done, chunk as int);
            }
        }
        proof {
            if law {
                assert(cur_va as int % span(n) == va as int % span(n) + done && cur_pa as int == pa
                    + done && chunk_ok(*self, n, cur_va as int, cur_pa as int, chunk as int)) by {
                    assert(done % 0x4000 == 0);
                    lemma_chunk_ok(
                        *self,
                        start,
                        n,
                        va as int,
                        pa as int,
                        s,
                        done,
                        chunk as int,
                        attr,
                        pbo,
                    );
                }
            }
        }
        let r = self.map_chunk(cur_va, cur_pa, chunk, attributes, permissions, level);
        match r {
            Ok(()) => {},
            Err(err) => {
                proof {
                    if law {
                        lemma_loop_error(before, *self, start, n, va as int, pa as int, s, done, attr, pbo);
                    }
                    if cs {
                        reveal(conflict_state);
                        lemma_same_trans(*self, before, start, n);
                    }
                }
                return Err(err);
            },
        }
        proof {
            if law {
                assert(done % 0x4000 == 0);
                lemma_loop_step(
                    before,
                    *self,
                    start,
                    n,
                    va as int,
                    pa as int,
                    s,
                    done,
                    chunk as int,
                    attr,
                    pbo,
                );
                if pbo is Some && laid_out(before, start.table@, n, va as int % span(n), done, pa as int) {
                    reveal(loop_state);
                    lemma_mod_nested(va as int, n);
                    assert((cur_va as int % span(n)) % e == cur_va as int % e);
                    assert(cur_va as int % span(n) == va as int % span(n) + done);
                    assert(chunk_ok(before, n, cur_va as int, cur_pa as int, chunk as int));
                    reveal(chunk_ok);
                    assert((va as int % span(n) + done) % e + chunk <= e);
                    if done > 0 {
                        assert(done < s);
                        assert((va + done) % esize(n) == 0);
                        assert(cur_va as int == va + done);
                    }
                    lemma_laid_out_step(
                        before,
                        *self,
                        start.table@,
                        n,
                        va as int % span(n),
                        done,
                        chunk as int,
                        pa as int,
                    );
                }
            }
        }
        proof {
            if rs {
                reveal(remap_state);
                lemma_same_trans(*self, before, start, n);
            }
            if cs {
                reveal(conflict_state);
                lemma_same_trans(*self, before, start, n);
            }
        }
        Ok(chunk)
    }

    /// Maps `[va, va + size)` (size rounded up to whole pages) to `pa`
    /// onwards in this table of level `level`.
    #[verifier::rlimit(100)]
    #[verifier::spinoff_prover]
    fn map_region_internal(
        &mut self,
        va: u64,
        pa: u64,
        size: u64,
        attributes: Attributes,
        permissions: GlobalPermissions,
        level: TranslationLevel,
    ) -> (result: Result<(), Error>)
        requires
            wf_table(*old(self), level_num(level)),
            va % 0x4000 == 0,
            size + 0x4000 <= u64::MAX,
            pa + page_round(size as int) <= 0x1_0000_0000_0000_0000,
            va + page_round(size as int) <= 0x1_0000_0000_0000_0000,
        ensures
            wf_table(*final(self), level_num(level)),
            map_ok(*old(self), level_num(level), va as int, pa as int, size as int) ==> map_result(
                *final(self),
                *old(self),
                level_num(level),
                va as int,
                pa as int,
                size as int,
                attributes,
                permissions,
                result,
            ),
            map_ok(*old(self), level_num(level), va as int, pa as int, size as int) && perm_bits(permissions) is Some
                ==> laid_out(
                *final(self),
                old(self).table@,
                level_num(level),
                va as int % span(level_num(level)),
                page_round(size as int),
                pa as int,
            ),
            remap_ok(*old(self), level_num(level), va as int, pa as int, size as int) ==> result is Ok
                && same_tables(*final(self), *old(self), level_num(level)),
            conflict_ok(*old(self), level_num(level), va as int, pa as int, size as int) ==> (result matches Err(
                Error::OverlapsExistingMapping(_, _),
            )) && same_tables(*final(self), *old(self), level_num(level)),
        decreases 3 - level_num(level), 2int,
    {
        let ghost n = level_num(level);
        let ghost e = esize(n);
        let ghost o0 = va as int % span(n);
        let ghost law = map_ok(*old(self), n, va as int, pa as int, size as int);
        let ghost pbo = perm_bits(permissions);
        let ghost attr = attributes_index(attributes);
        let ghost size0 = size as int;
        let mut rounded_size = size;
        if rounded_size % 0x4000 != 0 {
            rounded_size = rounded_size + 0x4000 - rounded_size % 0x4000;
        }
        assert(rounded_size % 0x4000 == 0);
        let ghost s = rounded_size as int;
        let entry_size = level.entry_size();
        let mut remaining = rounded_size;
        let mut cur_va = va;
        let mut cur_pa = pa;
        let ghost rm = remap_ok(*old(self), n, va as int, pa as int, size as int);
        let ghost rc = conflict_ok(*old(self), n, va as int, pa as int, size as int);
        proof {
            if rc {
                reveal(conflict_state);
                lemma_same_refl(*old(self), n);
                assert(conflict_state(*old(self), *old(self), n, va as int, pa as int, s, 0));
            }
            if rm {
                reveal(remap_state);
                lemma_same_refl(*old(self), n);
                assert(remap_state(*old(self), *old(self), n, va as int, pa as int, s, 0));
            }
            if law {
                lemma_loop_init(*old(self), n, va as int, pa as int, size as int, attr, pbo);
                lemma_laid_out_empty(*old(self), n, o0, pa as int);
            }
        }
        while remaining != 0
            invariant
                wf_table(*self, n),
                n == level_num(level),
                e == esize(n),
                entry_size == e,
                0 <= n <= 3,
                0 <= remaining <= s,
                s % 0x4000 == 0,
                remaining > 0 ==> cur_va == va + (s - remaining),
                va + s <= 0x1_0000_0000_0000_0000,
                remaining > 0 ==> cur_pa == pa + (s - remaining),
                pa + s <= 0x1_0000_0000_0000_0000,
                cur_va % 0x4000 == 0,
                remaining % 0x4000 == 0,
                va % 0x4000 == 0,
                s <= u64::MAX,
                size0 == size as int,
                law == map_ok(*old(self), n, va as int, pa as int, size0),
                s == page_round(size0),
                o0 == va as int % span(n),
                pbo == perm_bits(permissions),
                attr == attributes_index(attributes),
                law ==> loop_state(
                    *self,
                    *old(self),
                    n,
                    va as int,
                    pa as int,
                    s,
                    s - remaining,
                    attr,
                    pbo,
                ),
                law && pbo is Some ==> laid_out(*self, old(self).table@, n, o0, s - remaining, pa as int),
                rm == remap_ok(*old(self), n, va as int, pa as int, size0),
                rm ==> remap_state(*self, *old(self), n, va as int, pa as int, s, s - remaining),
                rc == conflict_ok(*old(self), n, va as int, pa as int, size0),
                rc ==> conflict_state(*self, *old(self), n, va as int, pa as int, s, s - remaining),
            decreases remaining,
        {
            let r = self.map_step(
                va,
                pa,
                cur_va,
                cur_pa,
                remaining,
                attributes,
                permissions,
                level,
                Ghost(*old(self)),
                Ghost(s),
                Ghost(law),
            );
            let chunk = match r {
                Ok(chunk) => chunk,
                Err(err) => {
                    return Err(err);
                },
            };
            remaining = remaining - chunk;
            if remaining != 0 {
                cur_pa = cur_pa + chunk;
                cur_va = cur_va + chunk;
            }
        }
        proof {
            if rm {
                reveal(remap_state);
            }
            if rc {
                reveal(conflict_state);
            }
            if law {
                lemma_loop_done(*self, *old(self), n, va as int, pa as int, s, attr, pbo);
            }
        }
        Ok(())
    }

    /// Removes the chunk `[va, va + chunk)`, which lies inside one entry of
    /// this table of level `level`.
    #[verifier::rlimit(100)]
    fn unmap_chunk(&mut self, va: u64, chunk: u64, level: TranslationLevel) -> (result: Result<
        (),
        Error,
    >)
        requires
            wf_table(*old(self), level_num(level)),
            va % 0x4000 == 0,
            chunk % 0x4000 == 0,
            0 < chunk <= esize(level_num(level)),
            va + chunk <= 0x1_0000_0000_0000_0000,
            va as int % esize(level_num(level)) != 0 ==> level_num(level) < 3,
        ensures
            wf_table(*final(self), level_num(level)),
            forall|j: int|
                0 <= j < 2048 && j != table_index(level_num(level), va as int) ==> #[trigger] final(self).table@[j] == old(self).table@[j],
            unmap_chunk_ok(*old(self), level_num(level), va as int, chunk as int) ==> result is Ok
                && unmapped_as(
                *final(self),
                *old(self),
                level_num(level),
                va as int % span(level_num(level)),
                chunk as int,
            ),
            desc_type(old(self).table@[table_index(level_num(level), va as int)].bits) == DescriptorType::Invalid
                ==> result is Ok && *final(self) == *old(self),
            unmap_chunk_ok(*old(self), level_num(level), va as int, chunk as int) ==> entry_cleared(
                final(self).table@[table_index(level_num(level), va as int)],
                old(self).table@[table_index(level_num(level), va as int)],
                level_num(level),
                va as int % esize(level_num(level)),
                chunk as int,
            ),
        decreases 3 - level_num(level), 0int,
    {
        let ghost n = level_num(level);
        let ghost e = esize(n);
        let ghost o = va as int % span(n);
        let ghost law = unmap_chunk_ok(*old(self), n, va as int, chunk as int);
        let ghost before = *self;
        proof {
            reveal(unmap_chunk_ok);
            lemma_mod_nested(va as int, n);
        }
        let entry_size = level.entry_size();
        let index = level.table_index_for_addr(va);
        let aligned = level.is_address_aligned(va);
        let entry_type = self.table[index].ty();
        if matches!(entry_type, DescriptorType::Invalid) {
            proof {
                if law {
                    assert forall|x: int| 0 <= x < e implies #[trigger] entry_translate(
                        self.table@[o / e],
                        n,
                        x,
                    ) == None::<Translation> by {}
                    lemma_entry_unmapped(before, *self, n, o, chunk as int);
                }
            }
            return Ok(());
        }
        if (aligned && chunk == entry_size) || matches!(entry_type, DescriptorType::Page) {
            self.table.set(index, DescriptorEntry::new_invalid());
            proof {
                assert(wf_entry(self.table@[index as int], n));
                lemma_wf_set(before, *self, n, index as int);
                if law {
                    reveal(entry_clean);
                    assert(o % e == 0 && chunk == e);
                    lemma_entry_unmapped(before, *self, n, o, chunk as int);
                }
            }
            return Ok(());
        }
        proof {
            if n == 3 {
                assert(wf_entry(self.table@[index as int], n));
                assert(false);
            }
            assert(n < 3);
        }
        let ghost bits0 = before.table@[index as int].bits;
        let ghost pa0 = (bits0 & PA_MASK) as int;
        let ghost blk = law && desc_type(bits0) == DescriptorType::Block;
        let ghost mut split_child: LevelTable = before;
        if matches!(entry_type, DescriptorType::Block) {
            proof {
                assert(wf_entry(self.table@[index as int], n));
                if law {
                    reveal(entry_clean);
                    assert(o / e == index);
                    assert(o % e == 0);
                    assert(va as int % e == 0);
                    assert(chunk < e);
                }
            }
            let attrs = match self.table[index].attrs() {
                Some(a) => a,
                None => {
                    proof {
                        assert(false);
                    }
                    return Err(Error::InvalidPermissions);
                },
            };
            let permissions = match self.table[index].permissions() {
                Some(p) => p,
                None => {
                    proof {
                        assert(false);
                    }
                    return Err(Error::InvalidPermissions);
                },
            };
            let pa = match self.table[index].pa() {
                Some(p) => p.as_u64(),
                None => {
                    proof {
                        assert(false);
                    }
                    return Err(Error::InvalidPermissions);
                },
            };
            proof {
                lemma_pa_bound(self.table@[index as int].bits);
                if law {
                    reveal(entry_clean);
                    assert(attr_index_of(bits0) <= 2);
                    assert(attributes_index(attrs) == attr_index_of(bits0)) by {
                        if attr_index_of(bits0) == 0 {
                        } else if attr_index_of(bits0) == 1 {
                        } else {
                        }
                    }
                    assert(permissions == mapping_permissions(bits0));
                    assert(perm_bits(permissions) == Some(bits0 & PERM_MASK));
                    assert(pa as int == pa0);
                    assert(pa0 + e <= 0x1_0000_0000_0000);
                }
            }
            self.table.set(index, DescriptorEntry::new_table_desc(Ghost(n + 1)));
            let ghost mid = *self;
            let taken = self.table[index].table.take();
            let mut child = match taken {
                Some(c) => c,
                None => {
                    proof {
                        assert(false);
                    }
                    return Err(Error::InvalidPermissions);
                },
            };
            let next_level = level.next();
            let ghost child_fresh = *child;
            proof {
                lemma_mod_nested(va as int, n + 1);
                if law {
                    reveal(unmapped);
                    assert(va % entry_size == 0);
                    assert(span(n + 1) == e);
                    assert(page_round(e) == e);
                    assert(splits_exactly(n + 1, 0, e));
                    assert(pa % 0x4000 == 0);
                    assert(map_ok(child_fresh, n + 1, 0, pa as int, e));
                }
            }
            let r = child.map_region_internal(
                va % entry_size,
                pa,
                entry_size,
                attrs,
                permissions,
                next_level,
            );
            let ghost child_m = *child;
            self.table[index].table = Some(child);
            proof {
                assert(self.table@ =~= before.table@.update(index as int, self.table@[index as int]));
                assert(wf_entry(self.table@[index as int], n));
                lemma_wf_set(before, *self, n, index as int);
                split_child = child_m;
                if law {
                    reveal(mapped_as);
                    assert(child_fresh.table@ == blank_entries());
                    assert(laid_out(child_m, blank_entries(), n + 1, 0, e, pa0));
                    assert forall|y: int| 0 <= y < e implies #[trigger] entry_translate(
                        self.table@[index as int],
                        n,
                        y,
                    ) == entry_translate(before.table@[index as int], n, y) by {
                        lemma_entry_table(self.table@[index as int], n, y);
                        assert(translate(child_m, n + 1, y) == Some((pa0 + y, attr_index_of(bits0), bits0 & PERM_MASK)));
                    }
                }
            }
            match r {
                Ok(()) => {},
                Err(err) => {
                    return Err(err);
                },
            }
        }
        let ghost mid = *self;
        let ghost mid_entry = self.table@[index as int];
        proof {
            assert(wf_table(mid, n));
            assert(wf_entry(mid_entry, n));
            assert(desc_type(mid_entry.bits) == DescriptorType::Table);
        }
        let taken = self.table[index].table.take();
        let mut child = match taken {
            Some(c) => c,
            None => {
                proof {
                    assert(false);
                }
                return Err(Error::InvalidPermissions);
            },
        };
        let ghost child_before = *child;
        proof {
            lemma_mod_nested(va as int, n + 1);
            if law {
                reveal(entry_clean);
                if blk {
                    assert(child_before == split_child);
                    assert(va as int % e == 0);
                    lemma_laid_out_clean_prefix(child_before, blank_entries(), n + 1, 0, e, pa0, chunk as int);
                    assert(page_round(chunk as int) == chunk as int);
                } else {
                    assert(mid == before);
                    assert(range_clean(child_before, n + 1, va as int % e, chunk as int));
                }
                assert(unmap_ok(child_before, n + 1, va as int, chunk as int));
            }
        }
        let r = child.unmap_range(va, chunk, level.next());
        let ghost child_after = *child;
        self.table[index].table = Some(child);
        proof {
            assert(self.table@ =~= mid.table@.update(
                index as int,
                DescriptorEntry { bits: mid_entry.bits, table: Some(Box::new(child_after)) },
            ));
            assert(wf_entry(self.table@[index as int], n));
            lemma_wf_set(mid, *self, n, index as int);
            if law {
                reveal(unmapped_as);
                assert forall|x: int| 0 <= x < e implies #[trigger] entry_translate(
                    self.table@[o / e],
                    n,
                    x,
                ) == if o % e <= x < o % e + chunk {
                    None
                } else {
                    entry_translate(before.table@[o / e], n, x)
                } by {
                    lemma_entry_table(self.table@[o / e], n, x);
                    if !blk {
                        lemma_entry_table(before.table@[o / e], n, x);
                    } else {
                        assert(entry_translate(mid.table@[o / e], n, x) == entry_translate(before.table@[o / e], n, x));
                        lemma_entry_table(mid.table@[o / e], n, x);
                    }
                    assert(translate(child_after, n + 1, x) == if va as int % e <= x < va as int
                        % e + chunk {
                        None
                    } else {
                        translate(child_before, n + 1, x)
                    });
                }
                lemma_entry_unmapped(before, *self, n, o, chunk as int);
                if blk {
                    assert(laid_out(split_child, blank_entries(), n + 1, 0, e, pa0) && cleared(
                        child_after,
                        split_child.entries(),
                        n + 1,
                        0,
                        chunk as int,
                    ));
                }
            }
        }
        r
    }

    /// One step of an unmapping of `s` bytes from `va`: removes the chunk
    /// that starts at `cur_va` and answers its size.
    #[verifier::rlimit(100)]
    fn unmap_step(
        &mut self,
        va: u64,
        cur_va: u64,
        remaining: u64,
        level: TranslationLevel,
        Ghost(start): Ghost<LevelTable>,
        Ghost(s): Ghost<int>,
        Ghost(law): Ghost<bool>,
    ) -> (result: Result<u64, Error>)
        requires
            wf_table(*old(self), level_num(level)),
            0 < remaining <= s,
            s % 0x4000 == 0,
            remaining % 0x4000 == 0,
            cur_va == va + (s - remaining),
            va + s <= 0x1_0000_0000_0000_0000,
            va % 0x4000 == 0,
            law ==> unmap_state(*old(self), start, level_num(level), va as int, s, s - remaining),
        ensures
            wf_table(*final(self), level_num(level)),
            result matches Ok(c) ==> 0 < c <= remaining && c % 0x4000 == 0,
            law ==> (result matches Ok(c) && unmap_state(
                *final(self),
                start,
                level_num(level),
                va as int,
                s,
                s - remaining + c,
            )),
            all_invalid(*old(self)) ==> (result matches Ok(c) && *final(self) == *old(self)),
            law && cleared(
                *old(self),
                start.entries(),
                level_num(level),
                va as int % span(level_num(level)),
                s - remaining,
            ) ==> (result matches Ok(c) ==> cleared(
                *final(self),
                start.entries(),
                level_num(level),
                va as int % span(level_num(level)),
                s - remaining + c,
            )),
        decreases 3 - level_num(level), 1int,
    {
        let ghost n = level_num(level);
        let ghost e = esize(n);
        let ghost done = s - remaining;
        let ghost before = *self;
        proof {
            lemma_mod_nested(cur_va as int, n);
            if n == 3 {
                assert(cur_va as int % e == 0);
            }
            assert(cur_va % 0x4000 == 0);
        }
        let chunk = level.chunk_size(cur_va, remaining);
        proof {
            if law {
                assert(done % 0x4000 == 0);
                lemma_unmap_chunk_ok(*self, start, n, va as int, s, done, chunk as int);
            }
            if all_invalid(before) {
                let idx = table_index(n, cur_va as int);
                assert(0 <= idx < 2048);
                assert(before.entries().len() == 2048);
                assert(desc_type(before.entries()[idx].spec_bits()) == DescriptorType::Invalid);
                assert(before.entries()[idx] == before.table@[idx]);
                assert(desc_type(before.table@[idx].bits) == DescriptorType::Invalid);
            }
        }
        let r = self.unmap_chunk(cur_va, chunk, level);
        match r {
            Ok(()) => {},
            Err(err) => {
                return Err(err);
            },
        }
        proof {
            if law {
                assert(done % 0x4000 == 0);
                lemma_unmap_step(before, *self, start, n, va as int, s, done, chunk as int);
                if cleared(before, start.entries(), n, va as int % span(n), done) {
                    reveal(unmap_state);
                    reveal(unmap_chunk_ok);
                    lemma_mod_nested(va as int, n);
                    assert((cur_va as int % span(n)) % e == cur_va as int % e);
                    assert(cur_va as int % span(n) == va as int % span(n) + done);
                    assert((va as int % span(n) + done) % e + chunk <= e);
                    if done > 0 {
                        assert((va + done) % esize(n) == 0);
                    }
                    lemma_cleared_step(before, *self, start.entries(), n, va as int % span(n), done, chunk as int);
                }
            }
        }
        Ok(chunk)
    }

    /// Removes the mappings of `[va, va + size)` (size rounded up to whole
    /// pages) from this table of level `level`.
    pub fn unmap_region_internal(
        &mut self,
        va: VirtualAddress,
        size: usize,
        level: TranslationLevel,
    ) -> (result: Result<(), Error>)
        requires
            wf_table(*old(self), level_num(level)),
            va.addr() % 0x4000 == 0,
            size + 0x4000 <= u64::MAX,
            va.addr() + page_round(size as int) <= 0x1_0000_0000_0000_0000,
        ensures
            wf_table(*final(self), level_num(level)),
            unmap_ok(*old(self), level_num(level), va.addr() as int, size as int) ==> result is Ok
                && unmapped_as(
                *final(self),
                *old(self),
                level_num(level),
                va.addr() as int % span(level_num(level)),
                page_round(size as int),
            ),
            all_invalid(*old(self)) ==> result is Ok && *final(self) == *old(self),
            unmap_ok(*old(self), level_num(level), va.addr() as int, size as int) ==> cleared(
                *final(self),
                old(self).entries(),
                level_num(level),
                va.addr() as int % span(level_num(level)),
                page_round(size as int),
            ),
    {
        self.unmap_range(va.as_u64(), size as u64, level)
    }

    /// Removes the mappings of `[va, va + size)` (size rounded up to whole
    /// pages) from this table of level `level`.
    #[verifier::rlimit(100)]
    fn unmap_range(&mut self, va: u64, size: u64, level: TranslationLevel) -> (result: Result<
        (),
        Error,
    >)
        requires
            wf_table(*old(self), level_num(level)),
            va % 0x4000 == 0,
            size + 0x4000 <= u64::MAX,
            va + page_round(size as int) <= 0x1_0000_0000_0000_0000,
        ensures
            wf_table(*final(self), level_num(level)),
            unmap_ok(*old(self), level_num(level), va as int, size as int) ==> result is Ok
                && unmapped_as(
                *final(self),
                *old(self),
                level_num(level),
                va as int % span(level_num(level)),
                page_round(size as int),
            ),
            all_invalid(*old(self)) ==> result is Ok && *final(self) == *old(self),
            unmap_ok(*old(self), level_num(level), va as int, size as int) ==> cleared(
                *final(self),
                old(self).entries(),
                level_num(level),
                va as int % span(level_num(level)),
                page_round(size as int),
            ),
        decreases 3 - level_num(level), 2int,
    {
        let ghost n = level_num(level);
        let ghost law = unmap_ok(*old(self), n, va as int, size as int);
        let ghost size0 = size as int;
        let mut rounded_size = size;
        if rounded_size % 0x4000 != 0 {
            rounded_size = rounded_size + 0x4000 - rounded_size % 0x4000;
        }
        assert(rounded_size % 0x4000 == 0);
        let ghost s = rounded_size as int;
        let mut remaining = rounded_size;
        let mut cur_va = va;
        proof {
            if law {
                lemma_unmap_init(*old(self), n, va as int, size as int);
                lemma_cleared_empty(*old(self), n, va as int % span(n));
            }
        }
        while remaining != 0
            invariant
                wf_table(*self, n),
                n == level_num(level),
                0 <= n <= 3,
                0 <= remaining <= s,
                s % 0x4000 == 0,
                remaining > 0 ==> cur_va == va + (s - remaining),
                va + s <= 0x1_0000_0000_0000_0000,
                remaining % 0x4000 == 0,
                va % 0x4000 == 0,
                size0 == size as int,
                law == unmap_ok(*old(self), n, va as int, size0),
                s == page_round(size0),
                law ==> unmap_state(*self, *old(self), n, va as int, s, s - remaining),
                law ==> cleared(*self, old(self).entries(), n, va as int % span(n), s - remaining),
                all_invalid(*old(self)) ==> *self == *old(self),
            decreases remaining,
        {
            let r = self.unmap_step(
                va,
                cur_va,
                remaining,
                level,
                Ghost(*old(self)),
                Ghost(s),
                Ghost(law),
            );
            let chunk = match r {
                Ok(chunk) => chunk,
                Err(err) => {
                    return Err(err);
                },
            };
            remaining = remaining - chunk;
            if remaining != 0 {
                cur_va = cur_va + chunk;
            }
        }
        proof {
            if law {
                lemma_unmap_done(*self, *old(self), n, va as int, s);
            }
        }
        Ok(())
    }

    /// Removes the mappings of `[va, va + size)`, rounded up to whole pages.
    pub fn unmap_region(&mut self, va: VirtualAddress, size: usize) -> (result: Result<(), Error>)
        requires
            wf_table(*old(self), 0),
            va.addr() % 0x4000 == 0,
            size + 0x4000 <= u64::MAX,
            va.addr() + page_round(size as int) <= 0x1_0000_0000_0000_0000,
        ensures
            wf_table(*final(self), 0),
            unmap_ok(*old(self), 0, va.addr() as int, size as int) ==> result is Ok && unmapped_as(
                *final(self),
                *old(self),
                0,
                va.addr() as int % span(0),
                page_round(size as int),
            ),
            all_invalid(*old(self)) ==> result is Ok && *final(self) == *old(self),
            unmap_ok(*old(self), 0, va.addr() as int, size as int) ==> cleared(
                *final(self),
                old(self).entries(),
                0,
                va.addr() as int % span(0),
                page_round(size as int),
            ),
    {
        self.unmap_region_internal(va, size, TranslationLevel::Level0)
    }

    /// Maps `[va, va + size)`, rounded up to whole pages, to `pa` onwards.
    pub fn map_region(
        &mut self,
        va: VirtualAddress,
        pa: PhysicalAddress,
        size: usize,
        attributes: Attributes,
        permissions: GlobalPermissions,
    ) -> (result: Result<(), Error>)
        requires
            wf_table(*old(self), 0),
            va.addr() % 0x4000 == 0,
            size + 0x4000 <= u64::MAX,
            va.addr() + page_round(size as int) <= 0x1_0000_0000_0000_0000,
            pa.addr() + page_round(size as int) <= 0x1_0000_0000_0000_0000,
        ensures
            wf_table(*final(self), 0),
            map_ok(*old(self), 0, va.addr() as int, pa.addr() as int, size as int) ==> map_result(
                *final(self),
                *old(self),
                0,
                va.addr() as int,
                pa.addr() as int,
                size as int,
                attributes,
                permissions,
                result,
            ),
            map_ok(*old(self), 0, va.addr() as int, pa.addr() as int, size as int) && perm_bits(permissions) is Some
                ==> laid_out(
                *final(self),
                old(self).entries(),
                0,
                va.addr() as int % span(0),
                page_round(size as int),
                pa.addr() as int,
            ),
            remap_ok(*old(self), 0, va.addr() as int, pa.addr() as int, size as int) ==> result is Ok
                && same_tables(*final(self), *old(self), 0),
            conflict_ok(*old(self), 0, va.addr() as int, pa.addr() as int, size as int) ==> (result matches Err(
                Error::OverlapsExistingMapping(_, _),
            )) && same_tables(*final(self), *old(self), 0),
    {
        self.map_region_internal(
            va.as_u64(),
            pa.as_u64(),
            size as u64,
            attributes,
            permissions,
            TranslationLevel::Level0,
        )
    }
}

} // verus!
