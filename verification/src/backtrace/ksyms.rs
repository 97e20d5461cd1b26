//! Reader of the kernel symbol file (see [`crate::stripper`] for its
//! layout): finds the symbol that holds an address.
use vstd::prelude::*;

use crate::memory::address::{Address, VirtualAddress};
use crate::strings::from_utf8;
use crate::stripper::{
    entries, entries_bytes, entry_bytes, fits, law_sort_by_address, le_bytes32, le_bytes64,
    sort_by_address, string_table, symbol_file_bytes, SymbolView,
};
use vstd::string::StringSliceAdditionalSpecFns;
use vstd::utf8::{decode_utf8, valid_utf8};

verus! {

/// Size of the header.
pub const HEADER_SIZE: usize = 0x14;

/// Size of an entry.
pub const ENTRY_SIZE: usize = 24;

/// A 32-bit little-endian value at `o`.
pub open spec fn read_u32(d: Seq<u8>, o: int) -> u32 {
    (d[o] as u32) | ((d[o + 1] as u32) << 8u32) | ((d[o + 2] as u32) << 16u32) | ((d[o + 3] as u32)
        << 24u32)
}

/// A 64-bit little-endian value at `o`.
pub open spec fn read_u64(d: Seq<u8>, o: int) -> u64 {
    (d[o] as u64) | ((d[o + 1] as u64) << 8u64) | ((d[o + 2] as u64) << 16u64) | ((d[o + 3] as u64)
        << 24u64) | ((d[o + 4] as u64) << 32u64) | ((d[o + 5] as u64) << 40u64) | ((d[o + 6] as u64)
        << 48u64) | ((d[o + 7] as u64) << 56u64)
}

fn load_u32(d: &[u8], o: usize) -> (v: u32)
    requires
        o + 4 <= d@.len(),
    ensures
        v == read_u32(d@, o as int),
{
    (d[o] as u32) | ((d[o + 1] as u32) << 8) | ((d[o + 2] as u32) << 16) | ((d[o + 3] as u32) << 24)
}

fn load_u64(d: &[u8], o: usize) -> (v: u64)
    requires
        o + 8 <= d@.len(),
    ensures
        v == read_u64(d@, o as int),
{
    (d[o] as u64) | ((d[o + 1] as u64) << 8) | ((d[o + 2] as u64) << 16) | ((d[o + 3] as u64) << 24)
        | ((d[o + 4] as u64) << 32) | ((d[o + 5] as u64) << 40) | ((d[o + 6] as u64) << 48) | ((d[o
        + 7] as u64) << 56)
}

/// The file starts with the magic `Smbl`.
pub open spec fn has_magic(d: Seq<u8>) -> bool {
    &&& d.len() >= 4
    &&& d[0] == 0x53 && d[1] == 0x6d && d[2] == 0x62 && d[3] == 0x6c
}

pub open spec fn file_size(d: Seq<u8>) -> int {
    read_u32(d, 4) as int
}

pub open spec fn symbol_count(d: Seq<u8>) -> int {
    read_u32(d, 8) as int
}

pub open spec fn table_offset(d: Seq<u8>) -> int {
    read_u32(d, 0xC) as int
}

pub open spec fn strings_offset(d: Seq<u8>) -> int {
    read_u32(d, 0x10) as int
}

/// Inputs that the reader can take apart without running past the data:
/// at least the magic, and for a symbol file a header whose tables lie
/// inside the file, which lies inside the data.
pub open spec fn ksyms_readable(d: Seq<u8>) -> bool {
    &&& d.len() >= 4
    &&& has_magic(d) ==> {
        &&& d.len() >= HEADER_SIZE
        &&& file_size(d) <= d.len()
        &&& table_offset(d) + symbol_count(d) * ENTRY_SIZE <= file_size(d)
        &&& strings_offset(d) <= file_size(d)
    }
}

/// An entry as name offset, name length, address and size.
pub type EntryView = (int, int, u64, u64);

/// The entry at byte `o` of a symbol table.
pub open spec fn decode_entry(t: Seq<u8>, o: int) -> EntryView {
    (read_u32(t, o) as int, read_u32(t, o + 4) as int, read_u64(t, o + 8), read_u64(t, o + 16))
}

/// The entries of a symbol table.
pub open spec fn decode_entries(t: Seq<u8>) -> Seq<EntryView> {
    Seq::new(t.len() / ENTRY_SIZE as nat, |i: int| decode_entry(t, i * ENTRY_SIZE))
}

pub open spec fn holds(e: EntryView, a: int) -> bool {
    e.2 <= a < e.2 + e.3
}

/// The name bytes of `e`.
pub open spec fn name_of(strings: Seq<u8>, e: EntryView) -> Seq<u8> {
    strings.subrange(e.0, e.0 + e.1)
}

/// Entries in address order whose ranges do not overlap.
pub open spec fn sorted_disjoint(e: Seq<EntryView>) -> bool {
    forall|i: int, j: int| 0 <= i < j < e.len() ==> #[trigger] e[i].2 + e[i].3 <= #[trigger] e[j].2
}

/// The symbols of the kernel image, found at `base`.
#[derive(Clone)]
pub struct KSyms<'a> {
    base_address: VirtualAddress,
    symbol_table_data: &'a [u8],
    string_table_data: &'a [u8],
}

enum EntryMatch {
    Previous,
    Match(Option<(String, usize)>),
    Next,
}

impl<'a> KSyms<'a> {
    /// Where the kernel image was loaded.
    pub closed spec fn base(&self) -> u64 {
        self.base_address.addr()
    }

    /// The bytes of the symbol table.
    pub closed spec fn table(&self) -> Seq<u8> {
        self.symbol_table_data@
    }

    /// The bytes of the name table.
    pub closed spec fn strings(&self) -> Seq<u8> {
        self.string_table_data@
    }

    pub open spec fn entries(&self) -> Seq<EntryView> {
        decode_entries(self.table())
    }

    /// Every entry ends inside the address space and names bytes of the
    /// name table.
    pub open spec fn entries_in_range(&self) -> bool {
        forall|i: int|
            0 <= i < self.entries().len() ==> {
                &&& #[trigger] self.entries()[i].2 + self.entries()[i].3 <= usize::MAX
                &&& self.entries()[i].0 + self.entries()[i].1 <= self.strings().len()
            }
    }

    fn entry(&self, i: usize) -> (e: (u32, u32, u64, u64))
        requires
            i < self.entries().len(),
        ensures
            (e.0 as int, e.1 as int, e.2, e.3) == self.entries()[i as int],
    {
        let len = self.symbol_table_data.len();
        assert(i * 24 + 24 <= len) by (nonlinear_arith)
            requires
                i < len / 24,
        ;
        let o = i * ENTRY_SIZE;
        (
            load_u32(self.symbol_table_data, o),
            load_u32(self.symbol_table_data, o + 4),
            load_u64(self.symbol_table_data, o + 8),
            load_u64(self.symbol_table_data, o + 16),
        )
    }

    fn get_name(&self, name_offset: usize, name_length: usize) -> (name: Option<&str>)
        requires
            name_offset + name_length <= self.strings().len(),
        ensures
            name is Some <==> valid_utf8(self.strings().subrange(
                name_offset as int,
                name_offset + name_length,
            )),
            name matches Some(n) ==> n@ == decode_utf8(
                self.strings().subrange(name_offset as int, name_offset + name_length),
            ),
    {
        let len = self.string_table_data.len();
        let data = &self.string_table_data[name_offset..name_offset + name_length];
        match from_utf8(data) {
            Some(s) => {
                proof {
                    crate::strings::lemma_decode_of_bytes(s);
                }
                Some(s)
            },
            None => None,
        }
    }

    fn matches_entry(&self, i: usize, addr: u64) -> (m: EntryMatch)
        requires
            i < self.entries().len(),
            self.entries_in_range(),
            addr <= usize::MAX,
        ensures
            m is Previous <==> addr < self.entries()[i as int].2,
            m is Next <==> addr >= self.entries()[i as int].2 + self.entries()[i as int].3,
            m matches EntryMatch::Match(r) ==> {
                let e = self.entries()[i as int];
                &&& holds(e, addr as int)
                &&& r is Some <==> valid_utf8(name_of(self.strings(), e))
                &&& r matches Some(p) ==> p.0@ == decode_utf8(name_of(self.strings(), e)) && p.1
                    == addr - e.2
            },
    {
        let (name_offset, name_length, symbol_start, symbol_size) = self.entry(i);
        assert(self.entries()[i as int].2 + self.entries()[i as int].3 <= usize::MAX);
        if addr < symbol_start {
            EntryMatch::Previous
        } else if addr >= symbol_start + symbol_size {
            EntryMatch::Next
        } else {
            assert(self.entries()[i as int].0 + self.entries()[i as int].1 <= self.strings().len());
            match self.get_name(name_offset as usize, name_length as usize) {
                Some(name) => EntryMatch::Match(Some((name.to_owned(), (addr - symbol_start) as usize))),
                None => EntryMatch::Match(None),
            }
        }
    }

    /// The name of the symbol that holds `addr`, and the offset of `addr`
    /// into it. The search halves the table while it has five entries or
    /// more, then looks at the rest one by one.
    pub fn symbolicate(&self, addr: VirtualAddress) -> (result: Option<(String, usize)>)
        requires
            addr.addr() > self.base(),
            addr.addr() - self.base() <= usize::MAX,
            self.entries_in_range(),
        ensures
            ({
                let a = addr.addr() - self.base();
                let e = self.entries();
                &&& result matches Some(r) ==> exists|i: int|
                    0 <= i < e.len() && holds(e[i], a) && valid_utf8(name_of(self.strings(), e[i]))
                        && r.0@ == decode_utf8(name_of(self.strings(), e[i])) && r.1 == a - e[i].2
                &&& sorted_disjoint(e) ==> (result is Some <==> exists|i: int|
                    0 <= i < e.len() && holds(e[i], a) && valid_utf8(name_of(self.strings(), e[i])))
            }),
    {
        let a: u64 = addr.as_u64() - self.base_address.as_u64();
        let ghost e = self.entries();
        let len = self.symbol_table_data.len();
        let mut lo: usize = 0;
        let mut hi: usize = len / ENTRY_SIZE;
        loop
            invariant
                e == self.entries(),
                self.entries_in_range(),
                a == addr.addr() - self.base(),
                a <= usize::MAX,
                lo <= hi <= e.len(),
                sorted_disjoint(e) ==> forall|i: int| 0 <= i < e.len() && holds(#[trigger] e[i], a as int) ==> lo <= i < hi,
            decreases hi - lo,
        {
            let num_entries = hi - lo;
            if num_entries < 5 {
                let mut i = lo;
                while i < hi
                    invariant
                        e == self.entries(),
                        self.entries_in_range(),
                        a == addr.addr() - self.base(),
                        a <= usize::MAX,
                        lo <= i <= hi <= e.len(),
                        forall|j: int| lo <= j < i ==> !holds(#[trigger] e[j], a as int),
                        sorted_disjoint(e) ==> forall|j: int| 0 <= j < e.len() && holds(#[trigger] e[j], a as int) ==> lo <= j < hi,
                    decreases hi - i,
                {
                    match self.matches_entry(i, a) {
                        EntryMatch::Match(result) => {
                            proof {
                                lemma_unique_holder(e, a as int, i as int);
                            }
                            return result;
                        },
                        _ => {},
                    }
                    i = i + 1;
                }
                return None;
            }
            let middle_index = lo + num_entries / 2;
            match self.matches_entry(middle_index, a) {
                EntryMatch::Previous => {
                    proof {
                        assert forall|i: int| 0 <= i < e.len() && holds(#[trigger] e[i], a as int) && sorted_disjoint(e) implies i < middle_index by {
                            if i >= middle_index && i != middle_index {
                                assert(e[middle_index as int].2 + e[middle_index as int].3 <= e[i].2);
                            }
                        }
                    }
                    hi = middle_index;
                },
                EntryMatch::Next => {
                    proof {
                        assert forall|i: int| 0 <= i < e.len() && holds(#[trigger] e[i], a as int) && sorted_disjoint(e) implies i > middle_index by {
                            if i < middle_index {
                                assert(e[i].2 + e[i].3 <= e[middle_index as int].2);
                            }
                        }
                    }
                    lo = middle_index + 1;
                },
                EntryMatch::Match(result) => {
                    proof {
                        lemma_unique_holder(e, a as int, middle_index as int);
                    }
                    return result;
                },
            }
        }
    }
}

/// With sorted, disjoint entries, at most one entry holds an address.
proof fn lemma_unique_holder(e: Seq<EntryView>, a: int, k: int)
    requires
        0 <= k < e.len(),
        holds(e[k], a),
    ensures
        sorted_disjoint(e) ==> forall|i: int| 0 <= i < e.len() && #[trigger] holds(e[i], a) ==> i == k,
{
    if sorted_disjoint(e) {
        assert forall|i: int| 0 <= i < e.len() && #[trigger] holds(e[i], a) implies i == k by {
            if i < k {
                assert(e[i].2 + e[i].3 <= e[k].2);
            } else if i > k {
                assert(e[k].2 + e[k].3 <= e[i].2);
            }
        }
    }
}

/// Reads the symbol file at the start of `data`, for a kernel loaded at
/// `base`, and gives its size in bytes. Fails when `data` does not start
/// with a symbol file.
pub fn parse<'a>(data: &'a [u8], base: VirtualAddress) -> (result: Result<(KSyms<'a>, usize), ()>)
    requires
        ksyms_readable(data@),
    ensures
        !has_magic(data@) ==> result is Err,
        has_magic(data@) ==> (result matches Ok((k, size)) && size == file_size(data@) && k.base()
            == base.addr() && k.table() == data@.subrange(
            table_offset(data@),
            table_offset(data@) + symbol_count(data@) * ENTRY_SIZE,
        ) && k.strings() == data@.subrange(strings_offset(data@), file_size(data@))),
{
    if data[0] != 0x53 || data[1] != 0x6d || data[2] != 0x62 || data[3] != 0x6c {
        return Err(());
    }
    let header = &data[0..HEADER_SIZE];
    let filesize = load_u32(header, 4) as usize;
    let symbol_table_offset = load_u32(header, 0xC) as usize;
    let num_symbols = load_u32(header, 8) as usize;
    let string_table_offset = load_u32(header, 0x10) as usize;
    proof {
        assert(header@ == data@.subrange(0, 0x14));
        assert(filesize == file_size(data@));
        assert(symbol_table_offset == table_offset(data@));
        assert(num_symbols == symbol_count(data@));
        assert(string_table_offset == strings_offset(data@));
    }
    let data = &data[0..filesize];
    let symbol_table_data = &data[symbol_table_offset..symbol_table_offset + num_symbols * ENTRY_SIZE];
    let string_table_data = &data[string_table_offset..filesize];
    let ksyms = KSyms { base_address: base, symbol_table_data, string_table_data };
    Ok((ksyms, filesize))
}

/// The payload after the symbol file at its start.
pub open spec fn after_file(d: Seq<u8>) -> Seq<u8> {
    d.subrange(file_size(d), d.len() as int)
}

/// Reads the symbol file at the start of the kernel's payload. A payload
/// holds at most one symbol file: what follows it must not start with
/// another.
pub fn parse_payload<'a>(payload: &'a [u8], base: VirtualAddress) -> (ksyms: Option<KSyms<'a>>)
    requires
        ksyms_readable(payload@),
        has_magic(payload@) ==> ksyms_readable(after_file(payload@)) && !has_magic(after_file(payload@)),
    ensures
        has_magic(payload@) <==> ksyms is Some,
        ksyms matches Some(k) ==> {
            &&& k.base() == base.addr()
            &&& k.table() == payload@.subrange(
                table_offset(payload@),
                table_offset(payload@) + symbol_count(payload@) * ENTRY_SIZE,
            )
            &&& k.strings() == payload@.subrange(strings_offset(payload@), file_size(payload@))
        },
{
    let (ksyms, size) = match parse(payload, base) {
        Ok(found) => found,
        Err(()) => {
            return None;
        },
    };
    let rest = &payload[size..payload.len()];
    assert(rest@ == after_file(payload@));
    match parse(rest, base) {
        Ok(_) => {
            assert(false);
            None
        },
        Err(()) => Some(ksyms),
    }
}

proof fn lemma_read_le32(d: Seq<u8>, o: int, v: u32)
    requires
        0 <= o,
        o + 4 <= d.len(),
        d.subrange(o, o + 4) == le_bytes32(v),
    ensures
        read_u32(d, o) == v,
{
    let b = le_bytes32(v);
    assert(d[o] == b[0] && d[o + 1] == b[1] && d[o + 2] == b[2] && d[o + 3] == b[3]);
    let (b0, b1, b2, b3) = (d[o], d[o + 1], d[o + 2], d[o + 3]);
    assert((b0 as u32) | ((b1 as u32) << 8u32) | ((b2 as u32) << 16u32) | ((b3 as u32) << 24u32)
        == v) by (bit_vector)
        requires
            b0 == (v & 0xff) as u8,
            b1 == ((v >> 8u32) & 0xff) as u8,
            b2 == ((v >> 16u32) & 0xff) as u8,
            b3 == ((v >> 24u32) & 0xff) as u8,
    ;
}

pub(crate) proof fn lemma_read_le64(d: Seq<u8>, o: int, v: u64)
    requires
        0 <= o,
        o + 8 <= d.len(),
        d.subrange(o, o + 8) == le_bytes64(v),
    ensures
        read_u64(d, o) == v,
{
    let lo = (v & 0xffff_ffff) as u32;
    let hi = (v >> 32u64) as u32;
    let b = le_bytes64(v);
    assert(b == le_bytes32(lo) + le_bytes32(hi));
    assert(d[o] == b[0] && d[o + 1] == b[1] && d[o + 2] == b[2] && d[o + 3] == b[3]);
    assert(d[o + 4] == b[4] && d[o + 5] == b[5] && d[o + 6] == b[6] && d[o + 7] == b[7]);
    let (b0, b1, b2, b3) = (d[o], d[o + 1], d[o + 2], d[o + 3]);
    let (b4, b5, b6, b7) = (d[o + 4], d[o + 5], d[o + 6], d[o + 7]);
    assert((b0 as u64) | ((b1 as u64) << 8u64) | ((b2 as u64) << 16u64) | ((b3 as u64) << 24u64)
        | ((b4 as u64) << 32u64) | ((b5 as u64) << 40u64) | ((b6 as u64) << 48u64) | ((b7 as u64)
        << 56u64) == v) by (bit_vector)
        requires
            lo == (v & 0xffff_ffff) as u32,
            hi == (v >> 32u64) as u32,
            b0 == (lo & 0xff) as u8,
            b1 == ((lo >> 8u32) & 0xff) as u8,
            b2 == ((lo >> 16u32) & 0xff) as u8,
            b3 == ((lo >> 24u32) & 0xff) as u8,
            b4 == (hi & 0xff) as u8,
            b5 == ((hi >> 8u32) & 0xff) as u8,
            b6 == ((hi >> 16u32) & 0xff) as u8,
            b7 == ((hi >> 24u32) & 0xff) as u8,
    ;
}

proof fn lemma_entries_bytes(es: Seq<EntryView>)
    ensures
        entries_bytes(es).len() == es.len() * ENTRY_SIZE,
        forall|i: int|
            0 <= i < es.len() ==> #[trigger] entries_bytes(es).subrange(
                i * ENTRY_SIZE,
                i * ENTRY_SIZE + ENTRY_SIZE,
            ) == entry_bytes(es[i]),
    decreases es.len(),
{
    if es.len() > 0 {
        let init = es.drop_last();
        lemma_entries_bytes(init);
        let b = entries_bytes(es);
        assert(b == entries_bytes(init) + entry_bytes(es.last()));
        assert forall|i: int| 0 <= i < es.len() implies #[trigger] entries_bytes(es).subrange(
            i * ENTRY_SIZE,
            i * ENTRY_SIZE + ENTRY_SIZE,
        ) == entry_bytes(es[i]) by {
            if i < es.len() - 1 {
                assert(entries_bytes(init).subrange(i * ENTRY_SIZE, i * ENTRY_SIZE + ENTRY_SIZE)
                    == entry_bytes(init[i]));
                assert(b.subrange(i * ENTRY_SIZE, i * ENTRY_SIZE + ENTRY_SIZE) =~= entries_bytes(
                    init,
                ).subrange(i * ENTRY_SIZE, i * ENTRY_SIZE + ENTRY_SIZE));
            } else {
                assert(b.subrange(i * ENTRY_SIZE, i * ENTRY_SIZE + ENTRY_SIZE) =~= entry_bytes(
                    es.last(),
                ));
            }
        }
    }
}

proof fn lemma_decode_entries(es: Seq<EntryView>)
    requires
        forall|i: int| 0 <= i < es.len() ==> 0 <= #[trigger] es[i].0 <= u32::MAX && 0 <= es[i].1 <= u32::MAX,
    ensures
        decode_entries(entries_bytes(es)) == es,
{
    lemma_entries_bytes(es);
    let t = entries_bytes(es);
    assert(t.len() / ENTRY_SIZE as nat == es.len()) by (nonlinear_arith)
        requires
            t.len() == es.len() * 24,
    ;
    assert forall|i: int| 0 <= i < es.len() implies decode_entries(t)[i] == es[i] by {
        let o = i * ENTRY_SIZE;
        let e = es[i];
        assert(0 <= o && o + 24 <= t.len()) by (nonlinear_arith)
            requires
                0 <= i < es.len(),
                o == i * 24,
                t.len() == es.len() * 24,
        ;
        let eb = t.subrange(o, o + 24);
        assert(eb == entry_bytes(e));
        assert(t.subrange(o, o + 4) =~= eb.subrange(0, 4));
        assert(t.subrange(o + 4, o + 8) =~= eb.subrange(4, 8));
        assert(t.subrange(o + 8, o + 16) =~= eb.subrange(8, 16));
        assert(t.subrange(o + 16, o + 24) =~= eb.subrange(16, 24));
        assert(eb.subrange(0, 4) =~= le_bytes32(e.0 as u32));
        assert(eb.subrange(4, 8) =~= le_bytes32(e.1 as u32));
        assert(eb.subrange(8, 16) =~= le_bytes64(e.2));
        assert(eb.subrange(16, 24) =~= le_bytes64(e.3));
        lemma_read_le32(t, o, e.0 as u32);
        lemma_read_le32(t, o + 4, e.1 as u32);
        lemma_read_le64(t, o + 8, e.2);
        lemma_read_le64(t, o + 16, e.3);
    }
    assert(decode_entries(t) =~= es);
}

proof fn lemma_string_table_prefix(syms: Seq<SymbolView>, k: int)
    requires
        0 <= k <= syms.len(),
    ensures
        string_table(syms.take(k)).len() <= string_table(syms).len(),
        string_table(syms).subrange(0, string_table(syms.take(k)).len() as int) == string_table(
            syms.take(k),
        ),
    decreases syms.len() - k,
{
    if k < syms.len() {
        lemma_string_table_prefix(syms, k + 1);
        let t = syms.take(k + 1);
        assert(t.drop_last() =~= syms.take(k));
        let a = string_table(syms.take(k));
        let b = string_table(t);
        assert(b == a + syms[k].0);
        assert(string_table(syms).subrange(0, a.len() as int) =~= b.subrange(0, a.len() as int));
        assert(b.subrange(0, a.len() as int) =~= a);
    } else {
        assert(syms.take(k) =~= syms);
    }
}

/// Entry `i` of the written entries names the bytes of symbol `i`.
proof fn lemma_entry_names(syms: Seq<SymbolView>, i: int)
    requires
        0 <= i < syms.len(),
    ensures
        entries(syms)[i].0 + entries(syms)[i].1 <= string_table(syms).len(),
        name_of(string_table(syms), entries(syms)[i]) == syms[i].0,
{
    lemma_string_table_prefix(syms, i + 1);
    let t = syms.take(i + 1);
    assert(t.drop_last() =~= syms.take(i));
    let a = string_table(syms.take(i));
    let b = string_table(t);
    assert(b == a + syms[i].0);
    let st = string_table(syms);
    assert(st.subrange(a.len() as int, (a.len() + syms[i].0.len()) as int) =~= b.subrange(
        a.len() as int,
        b.len() as int,
    ));
    assert(b.subrange(a.len() as int, b.len() as int) =~= syms[i].0);
}

/// The sorted entries point into the name table with 32-bit fields.
proof fn lemma_sorted_fields(syms: Seq<SymbolView>)
    requires
        fits(syms),
    ensures
        sort_by_address(entries(syms)).len() == syms.len(),
        forall|i: int|
            0 <= i < sort_by_address(entries(syms)).len() ==> 0 <= #[trigger] sort_by_address(
                entries(syms),
            )[i].0 <= u32::MAX && 0 <= sort_by_address(entries(syms))[i].1 <= u32::MAX,
{
    let es = entries(syms);
    let sorted = sort_by_address(es);
    law_sort_by_address(es);
    assert(sorted.len() == es.len()) by {
        vstd::seq_lib::to_multiset_len(sorted);
        vstd::seq_lib::to_multiset_len(es);
    }
    assert forall|i: int| 0 <= i < sorted.len() implies 0 <= #[trigger] sorted[i].0 <= u32::MAX && 0
        <= sorted[i].1 <= u32::MAX by {
        let x = sorted[i];
        assert(sorted.contains(x));
        vstd::seq_lib::to_multiset_contains(sorted, x);
        vstd::seq_lib::to_multiset_contains(es, x);
        assert(es.contains(x));
        let k = choose|k: int| 0 <= k < es.len() && es[k] == x;
        lemma_entry_names(syms, k);
        lemma_string_table_prefix(syms, k);
    }
}

/// Reading back a symbol file: it has the magic, its size is the whole
/// file, its entries are the written ones sorted by address, its name table
/// is the written one, and each written entry names its symbol.
pub proof fn law_symbol_file_read_back(syms: Seq<SymbolView>)
    requires
        fits(syms),
    ensures
        ({
            let d = symbol_file_bytes(syms);
            let n = syms.len() as int;
            &&& ksyms_readable(d)
            &&& has_magic(d)
            &&& file_size(d) == d.len()
            &&& symbol_count(d) == n
            &&& table_offset(d) == HEADER_SIZE
            &&& strings_offset(d) == HEADER_SIZE + n * ENTRY_SIZE
            &&& decode_entries(d.subrange(HEADER_SIZE as int, HEADER_SIZE + n * ENTRY_SIZE)) == sort_by_address(
                entries(syms),
            )
            &&& d.subrange(HEADER_SIZE + n * ENTRY_SIZE, d.len() as int) == string_table(syms)
            &&& forall|i: int| 0 <= i < n ==> #[trigger] name_of(string_table(syms), entries(syms)[i]) == syms[i].0
        }),
{
    let d = symbol_file_bytes(syms);
    let n = syms.len() as int;
    let st = string_table(syms);
    let es = entries(syms);
    let sorted = sort_by_address(es);
    lemma_sorted_fields(syms);
    lemma_decode_entries(sorted);
    lemma_entries_bytes(sorted);
    let fs = (HEADER_SIZE + n * ENTRY_SIZE + st.len()) as u32;
    let so = (HEADER_SIZE + n * ENTRY_SIZE) as u32;
    let eb = entries_bytes(sorted);
    assert(d == seq![0x53u8, 0x6du8, 0x62u8, 0x6cu8] + le_bytes32(fs) + le_bytes32(n as u32)
        + le_bytes32(0x14) + le_bytes32(so) + eb + st);
    assert(d.len() == HEADER_SIZE + n * ENTRY_SIZE + st.len());
    assert(d.subrange(4, 8) =~= le_bytes32(fs));
    assert(d.subrange(8, 12) =~= le_bytes32(n as u32));
    assert(d.subrange(12, 16) =~= le_bytes32(0x14));
    assert(d.subrange(16, 20) =~= le_bytes32(so));
    lemma_read_le32(d, 4, fs);
    lemma_read_le32(d, 8, n as u32);
    lemma_read_le32(d, 12, 0x14);
    lemma_read_le32(d, 16, so);
    assert(d.subrange(HEADER_SIZE as int, HEADER_SIZE + n * ENTRY_SIZE) =~= eb);
    assert(d.subrange(HEADER_SIZE + n * ENTRY_SIZE, d.len() as int) =~= st);
    assert forall|i: int| 0 <= i < n implies #[trigger] name_of(string_table(syms), entries(syms)[i])
        == syms[i].0 by {
        lemma_entry_names(syms, i);
    }
}

} // verus!
