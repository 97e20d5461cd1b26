//! Writer of the symbol file that the kernel reads back to name the
//! addresses of a stack trace. The file holds the text symbols of an ELF
//! image with demangled names: a header, one entry per symbol sorted by
//! address, and a table of the names.
//!
//! Layout, all integers little endian:
//! - header: magic `Smbl`, file size (u32), symbol count (u32), offset of
//!   the entries (u32, always `0x14`), offset of the name table (u32);
//! - entries of `0x18` bytes: name offset (u32) and length (u32) in the
//!   name table, address (u64), size (u64);
//! - the name table: the UTF-8 bytes of the names, back to back, in the
//!   order in which the symbols were found.
use vstd::prelude::*;

use object::{Object, ObjectSymbol, ObjectSymbolTable};
use vstd::utf8::encode_utf8;

verus! {

/// Kind of an ELF symbol, as the object reader classifies it.
#[derive(Debug, Clone, Copy, PartialEq, Eq, Structural)]
pub enum ElfSymbolKind {
    Unknown,
    Null,
    Text,
    Data,
    Section,
    File,
    Label,
    Tls,
}

/// A symbol of an ELF image as the object reader reports it. `name` is
/// `None` when the reader could not decode the name.
pub struct ElfSymbolRecord {
    pub kind: ElfSymbolKind,
    pub name: Option<String>,
    pub address: u64,
    pub size: u64,
}

/// A text symbol with its final name.
pub struct NamedSymbol {
    pub name: String,
    pub address: u64,
    pub size: u64,
}

/// An entry of the symbol file.
#[derive(Clone, Copy)]
pub struct Symbol {
    pub address: u64,
    pub size: u64,
    pub name_offset: u32,
    pub name_length: u32,
}

/// A symbol as the bytes of its name, its address and its size.
pub type SymbolView = (Seq<u8>, u64, u64);

/// An entry as name offset, name length, address and size.
pub type EntryView = (int, int, u64, u64);

impl Symbol {
    pub open spec fn view(&self) -> EntryView {
        (self.name_offset as int, self.name_length as int, self.address, self.size)
    }
}

pub open spec fn named_view(s: NamedSymbol) -> SymbolView {
    (encode_utf8(s.name@), s.address, s.size)
}

pub open spec fn named_views(s: Seq<NamedSymbol>) -> Seq<SymbolView> {
    s.map_values(|x: NamedSymbol| named_view(x))
}

pub open spec fn entry_views(s: Seq<Symbol>) -> Seq<EntryView> {
    s.map_values(|x: Symbol| x.view())
}

/// The name table: the names of `syms` back to back.
pub open spec fn string_table(syms: Seq<SymbolView>) -> Seq<u8>
    decreases syms.len(),
{
    if syms.len() == 0 {
        Seq::empty()
    } else {
        string_table(syms.drop_last()) + syms.last().0
    }
}

/// The entries of `syms`, in the same order, pointing into their name table.
pub open spec fn entries(syms: Seq<SymbolView>) -> Seq<EntryView> {
    Seq::new(
        syms.len(),
        |i: int| (string_table(syms.take(i)).len() as int, syms[i].0.len() as int, syms[i].1, syms[i].2),
    )
}

/// Index of the first entry whose address is above `a`.
pub open spec fn first_above(s: Seq<EntryView>, a: u64) -> int
    decreases s.len(),
{
    if s.len() == 0 {
        0
    } else if s[0].2 > a {
        0
    } else {
        1 + first_above(s.drop_first(), a)
    }
}

/// `s` sorted by address; entries with equal addresses keep their order.
pub open spec fn sort_by_address(s: Seq<EntryView>) -> Seq<EntryView>
    decreases s.len(),
{
    if s.len() == 0 {
        s
    } else {
        let sorted = sort_by_address(s.drop_last());
        sorted.insert(first_above(sorted, s.last().2), s.last())
    }
}

pub open spec fn sorted_by_address(s: Seq<EntryView>) -> bool {
    forall|i: int, j: int| 0 <= i < j < s.len() ==> s[i].2 <= s[j].2
}

pub open spec fn le_bytes32(v: u32) -> Seq<u8> {
    seq![
        (v & 0xff) as u8,
        ((v >> 8u32) & 0xff) as u8,
        ((v >> 16u32) & 0xff) as u8,
        ((v >> 24u32) & 0xff) as u8,
    ]
}

pub open spec fn le_bytes64(v: u64) -> Seq<u8> {
    le_bytes32((v & 0xffff_ffff) as u32) + le_bytes32((v >> 32u64) as u32)
}

pub open spec fn entry_bytes(e: EntryView) -> Seq<u8> {
    le_bytes32(e.0 as u32) + le_bytes32(e.1 as u32) + le_bytes64(e.2) + le_bytes64(e.3)
}

pub open spec fn entries_bytes(es: Seq<EntryView>) -> Seq<u8>
    decreases es.len(),
{
    if es.len() == 0 {
        Seq::empty()
    } else {
        entries_bytes(es.drop_last()) + entry_bytes(es.last())
    }
}

/// Size of the header.
pub const SYMBOL_TABLE_OFFSET: u32 = 0x14;

/// Size of an entry.
pub const SYMBOL_ENTRY_SIZE: u32 = 0x18;

pub open spec fn magic() -> Seq<u8> {
    seq![0x53u8, 0x6du8, 0x62u8, 0x6cu8]
}

/// Offset of the name table in the file for `syms`.
pub open spec fn string_table_offset(syms: Seq<SymbolView>) -> int {
    SYMBOL_TABLE_OFFSET + syms.len() * SYMBOL_ENTRY_SIZE
}

/// Whether the file for `syms` is small enough for its 32-bit offsets.
pub open spec fn fits(syms: Seq<SymbolView>) -> bool {
    string_table_offset(syms) + string_table(syms).len() <= u32::MAX
}

/// The symbol file for `syms`.
pub open spec fn symbol_file_bytes(syms: Seq<SymbolView>) -> Seq<u8> {
    let st = string_table(syms);
    let st_off = string_table_offset(syms);
    magic() + le_bytes32((st_off + st.len()) as u32) + le_bytes32(syms.len() as u32) + le_bytes32(
        SYMBOL_TABLE_OFFSET,
    ) + le_bytes32(st_off as u32) + entries_bytes(sort_by_address(entries(syms))) + st
}

fn push_u32(out: &mut Vec<u8>, v: u32)
    ensures
        final(out)@ == old(out)@ + le_bytes32(v),
{
    out.push((v & 0xff) as u8);
    out.push(((v >> 8) & 0xff) as u8);
    out.push(((v >> 16) & 0xff) as u8);
    out.push(((v >> 24) & 0xff) as u8);
    assert(final(out)@ =~= old(out)@ + le_bytes32(v));
}

pub(crate) fn push_u64(out: &mut Vec<u8>, v: u64)
    ensures
        final(out)@ == old(out)@ + le_bytes64(v),
{
    push_u32(out, (v & 0xffff_ffff) as u32);
    push_u32(out, (v >> 32) as u32);
    assert(final(out)@ =~= old(out)@ + le_bytes64(v));
}

proof fn lemma_first_above(s: Seq<EntryView>, a: u64, p: int)
    requires
        0 <= p <= s.len(),
        forall|j: int| 0 <= j < p ==> s[j].2 <= a,
        p < s.len() ==> s[p].2 > a,
    ensures
        first_above(s, a) == p,
    decreases p,
{
    if p > 0 {
        lemma_first_above(s.drop_first(), a, p - 1);
    }
}

/// Inserts `x` into `sorted` after every entry whose address is not above
/// that of `x`.
fn insert_by_address(sorted: &mut Vec<Symbol>, x: Symbol)
    ensures
        entry_views(final(sorted)@) == entry_views(old(sorted)@).insert(
            first_above(entry_views(old(sorted)@), x.address),
            x.view(),
        ),
{
    let ghost s = entry_views(sorted@);
    let mut p: usize = 0;
    while p < sorted.len() && sorted[p].address <= x.address
        invariant
            p <= sorted@.len(),
            s == entry_views(sorted@),
            forall|j: int| 0 <= j < p ==> s[j].2 <= x.address,
        decreases sorted@.len() - p,
    {
        p = p + 1;
    }
    proof {
        lemma_first_above(s, x.address, p as int);
    }
    sorted.insert(p, x);
    assert(entry_views(sorted@) =~= s.insert(p as int, x.view()));
}

proof fn lemma_first_above_bounds(s: Seq<EntryView>, a: u64)
    ensures
        0 <= first_above(s, a) <= s.len(),
        forall|j: int| 0 <= j < first_above(s, a) ==> #[trigger] s[j].2 <= a,
        first_above(s, a) < s.len() ==> s[first_above(s, a)].2 > a,
    decreases s.len(),
{
    if s.len() > 0 && s[0].2 <= a {
        lemma_first_above_bounds(s.drop_first(), a);
        assert forall|j: int| 0 <= j < first_above(s, a) implies #[trigger] s[j].2 <= a by {
            if j > 0 {
                assert(s[j] == s.drop_first()[j - 1]);
            }
        }
    }
}

/// The entries of a symbol file come out in address order, and they are
/// the entries that went in, each as often as it went in.
pub proof fn law_sort_by_address(s: Seq<EntryView>)
    ensures
        sorted_by_address(sort_by_address(s)),
        sort_by_address(s).to_multiset() == s.to_multiset(),
    decreases s.len(),
{
    broadcast use vstd::seq_lib::to_multiset_build, vstd::seq_lib::to_multiset_insert;

    if s.len() > 0 {
        let sorted = sort_by_address(s.drop_last());
        law_sort_by_address(s.drop_last());
        let x = s.last();
        let p = first_above(sorted, x.2);
        lemma_first_above_bounds(sorted, x.2);
        let r = sorted.insert(p, x);
        assert forall|i: int, j: int| 0 <= i < j < r.len() implies r[i].2 <= r[j].2 by {
            if j < p {
            } else if j == p {
                assert(r[i] == sorted[i]);
            } else if i < p {
                assert(r[j] == sorted[j - 1]);
                assert(sorted[i].2 <= x.2);
            } else if i == p {
                assert(r[j] == sorted[j - 1]);
                assert(sorted[p].2 > x.2);
                assert(sorted[p].2 <= sorted[j - 1].2);
            } else {
                assert(r[i] == sorted[i - 1]);
                assert(r[j] == sorted[j - 1]);
            }
        }
        assert(s.drop_last().push(x) =~= s);
    }
}

/// Sorts `symbols` by address, keeping the order of equal addresses.
fn sort_symbols(symbols: &Vec<Symbol>) -> (sorted: Vec<Symbol>)
    ensures
        entry_views(sorted@) == sort_by_address(entry_views(symbols@)),
{
    let mut sorted: Vec<Symbol> = Vec::new();
    let mut i: usize = 0;
    while i < symbols.len()
        invariant
            i <= symbols@.len(),
            entry_views(sorted@) == sort_by_address(entry_views(symbols@).take(i as int)),
        decreases symbols@.len() - i,
    {
        let x = symbols[i];
        insert_by_address(&mut sorted, x);
        proof {
            let t = entry_views(symbols@).take(i as int + 1);
            assert(t.drop_last() =~= entry_views(symbols@).take(i as int));
            assert(t.last() == x.view());
        }
        i = i + 1;
    }
    assert(entry_views(symbols@).take(symbols@.len() as int) =~= entry_views(symbols@));
    sorted
}

proof fn lemma_string_table_len_mono(syms: Seq<SymbolView>, i: int)
    requires
        0 <= i <= syms.len(),
    ensures
        string_table(syms.take(i)).len() <= string_table(syms).len(),
    decreases syms.len() - i,
{
    if i < syms.len() {
        lemma_string_table_len_mono(syms, i + 1);
        assert(syms.take(i + 1).drop_last() =~= syms.take(i));
    } else {
        assert(syms.take(i) =~= syms);
    }
}

/// The symbol file for `symbols`: the names go to the name table in the
/// given order and the entries are sorted by address.
pub fn symbol_file(symbols: &Vec<NamedSymbol>) -> (file: Vec<u8>)
    requires
        fits(named_views(symbols@)),
    ensures
        file@ == symbol_file_bytes(named_views(symbols@)),
{
    let ghost syms = named_views(symbols@);
    let mut strings: Vec<u8> = Vec::new();
    let mut entries_vec: Vec<Symbol> = Vec::new();
    let mut i: usize = 0;
    while i < symbols.len()
        invariant
            i <= symbols@.len(),
            syms == named_views(symbols@),
            fits(syms),
            strings@ == string_table(syms.take(i as int)),
            entry_views(entries_vec@) == entries(syms.take(i as int)),
        decreases symbols@.len() - i,
    {
        let name = symbols[i].name.as_str().as_bytes();
        proof {
            lemma_string_table_len_mono(syms, i as int + 1);
            assert(syms.take(i as int + 1).drop_last() =~= syms.take(i as int));
            assert(syms[i as int].0 == name@);
        }
        let offset = strings.len() as u32;
        let length = name.len() as u32;
        let mut j: usize = 0;
        let ghost before = strings@;
        while j < name.len()
            invariant
                j <= name@.len(),
                strings@ == before + name@.take(j as int),
            decreases name@.len() - j,
        {
            strings.push(name[j]);
            assert(name@.take(j as int + 1) =~= name@.take(j as int).push(name@[j as int]));
            j = j + 1;
        }
        assert(name@.take(name@.len() as int) =~= name@);
        let ghost prev = entry_views(entries_vec@);
        entries_vec.push(
            Symbol { address: symbols[i].address, size: symbols[i].size, name_offset: offset, name_length: length },
        );
        proof {
            let t = syms.take(i as int + 1);
            assert(strings@ == string_table(t));
            assert(entry_views(entries_vec@) =~= prev.push(entries_vec@.last().view()));
            assert(offset as int == string_table(syms.take(i as int)).len());
            assert(length as int == name@.len());
            assert forall|k: int| 0 <= k < i + 1 implies #[trigger] entry_views(entries_vec@)[k]
                == entries(t)[k] by {
                if k < i {
                    assert(t.take(k) =~= syms.take(i as int).take(k));
                    assert(prev[k] == entries(syms.take(i as int))[k]);
                } else {
                    assert(t.take(k) =~= syms.take(i as int));
                }
            }
            assert(entry_views(entries_vec@) =~= entries(t));
        }
        i = i + 1;
    }
    proof {
        assert(syms.take(symbols@.len() as int) =~= syms);
    }
    let sorted = sort_symbols(&entries_vec);
    let num_symbols = symbols.len() as u32;
    let string_table_offset = SYMBOL_TABLE_OFFSET + num_symbols * SYMBOL_ENTRY_SIZE;
    let filesize = string_table_offset + strings.len() as u32;
    let mut file: Vec<u8> = Vec::new();
    file.push(0x53);
    file.push(0x6d);
    file.push(0x62);
    file.push(0x6c);
    push_u32(&mut file, filesize);
    push_u32(&mut file, num_symbols);
    push_u32(&mut file, SYMBOL_TABLE_OFFSET);
    push_u32(&mut file, string_table_offset);
    let ghost head = file@;
    let mut k: usize = 0;
    while k < sorted.len()
        invariant
            k <= sorted@.len(),
            file@ == head + entries_bytes(entry_views(sorted@).take(k as int)),
        decreases sorted@.len() - k,
    {
        let e = sorted[k];
        push_u32(&mut file, e.name_offset);
        push_u32(&mut file, e.name_length);
        push_u64(&mut file, e.address);
        push_u64(&mut file, e.size);
        proof {
            let t = entry_views(sorted@).take(k as int + 1);
            assert(t.drop_last() =~= entry_views(sorted@).take(k as int));
            assert(t.last() == e.view());
        }
        k = k + 1;
    }
    assert(entry_views(sorted@).take(sorted@.len() as int) =~= entry_views(sorted@));
    let ghost body = file@;
    let mut j: usize = 0;
    while j < strings.len()
        invariant
            j <= strings@.len(),
            file@ == body + strings@.take(j as int),
        decreases strings@.len() - j,
    {
        file.push(strings[j]);
        assert(strings@.take(j as int + 1) =~= strings@.take(j as int).push(strings@[j as int]));
        j = j + 1;
    }
    assert(strings@.take(strings@.len() as int) =~= strings@);
    proof {
        assert(head =~= magic() + le_bytes32(filesize) + le_bytes32(num_symbols) + le_bytes32(
            SYMBOL_TABLE_OFFSET,
        ) + le_bytes32(string_table_offset));
    }
    assert(file@ =~= symbol_file_bytes(syms));
    file
}

/// What `rustc_demangle::demangle` prints for a symbol name.
pub uninterp spec fn demangled(name: Seq<char>) -> Seq<char>;

/// `rustc_demangle::demangle(name).to_string()`: the demangled form of a
/// Rust symbol name, or the name itself when it is not a mangled name. The
/// contract names the printed result as a function of the name alone.
#[verifier::external_body]
fn demangle(name: &str) -> (d: String)
    ensures
        d@ == demangled(name@),
{
    rustc_demangle::demangle(name).to_string()
}

/// The text symbols of `records`, in order, with demangled names.
pub open spec fn text_symbols(records: Seq<ElfSymbolRecord>) -> Seq<SymbolView>
    decreases records.len(),
{
    if records.len() == 0 {
        Seq::empty()
    } else {
        let rest = text_symbols(records.drop_last());
        let r = records.last();
        if r.kind == ElfSymbolKind::Text {
            rest.push((encode_utf8(demangled(r.name.unwrap()@)), r.address, r.size))
        } else {
            rest
        }
    }
}

/// Every text symbol of `records` has a readable name.
pub open spec fn text_names_readable(records: Seq<ElfSymbolRecord>) -> bool {
    forall|i: int| 0 <= i < records.len() && #[trigger] records[i].kind == ElfSymbolKind::Text ==> records[i].name is Some
}

/// Whether the symbol file for `symbols` fits its 32-bit offsets.
pub fn file_fits(symbols: &Vec<NamedSymbol>) -> (ok: bool)
    ensures
        ok == fits(named_views(symbols@)),
{
    let ghost syms = named_views(symbols@);
    if symbols.len() >= 0x0aaa_aaaa {
        proof {
            assert(string_table_offset(syms) > u32::MAX);
        }
        return false;
    }
    let mut total: u64 = 0x14u64 + (symbols.len() as u64) * 0x18u64;
    let mut i: usize = 0;
    while i < symbols.len()
        invariant
            i <= symbols@.len() < 0x0aaa_aaaa,
            syms == named_views(symbols@),
            total == string_table_offset(syms) + string_table(syms.take(i as int)).len(),
            total <= u32::MAX,
        decreases symbols@.len() - i,
    {
        let len = symbols[i].name.as_str().as_bytes().len();
        proof {
            assert(syms.take(i as int + 1).drop_last() =~= syms.take(i as int));
            lemma_string_table_len_mono(syms, i as int + 1);
        }
        if len as u64 > u32::MAX as u64 - total {
            proof {
                assert(string_table(syms.take(i as int + 1)).len() == string_table(syms.take(i as int)).len() + len);
            }
            return false;
        }
        total = total + len as u64;
        i = i + 1;
    }
    assert(syms.take(symbols@.len() as int) =~= syms);
    true
}

/// The symbol file for the text symbols of an ELF image, or `None` when it
/// would not fit its 32-bit offsets.
pub fn symbols_from_elf_file(symbols: &Vec<ElfSymbolRecord>) -> (file: Option<Vec<u8>>)
    requires
        text_names_readable(symbols@),
    ensures
        fits(text_symbols(symbols@)) ==> (file matches Some(f) && f@ == symbol_file_bytes(
            text_symbols(symbols@),
        )),
        !fits(text_symbols(symbols@)) ==> file is None,
{
    let mut named: Vec<NamedSymbol> = Vec::new();
    let mut i: usize = 0;
    while i < symbols.len()
        invariant
            i <= symbols@.len(),
            text_names_readable(symbols@),
            named_views(named@) == text_symbols(symbols@.take(i as int)),
        decreases symbols@.len() - i,
    {
        let record = &symbols[i];
        proof {
            assert(symbols@.take(i as int + 1).drop_last() =~= symbols@.take(i as int));
            assert(symbols@.take(i as int + 1).last() == *record);
        }
        if record.kind == ElfSymbolKind::Text {
            let name = match &record.name {
                Some(n) => n,
                None => {
                    proof {
                        assert(symbols@[i as int].kind == ElfSymbolKind::Text);
                    }
                    return None;
                },
            };
            let d = demangle(name.as_str());
            let ghost prev = named_views(named@);
            named.push(NamedSymbol { name: d, address: record.address, size: record.size });
            proof {
                assert(named_views(named@) =~= prev.push(named_view(named@.last())));
            }
        }
        i = i + 1;
    }
    assert(symbols@.take(symbols@.len() as int) =~= symbols@);
    if !file_fits(&named) {
        return None;
    }
    Some(symbol_file(&named))
}


/// A symbol record as plain values: kind, name text (when readable),
/// address and size.
pub type RecordView = (ElfSymbolKind, Option<Seq<char>>, u64, u64);

pub open spec fn record_view(r: ElfSymbolRecord) -> RecordView {
    (r.kind, match r.name {
        Some(n) => Some(n@),
        None => None,
    }, r.address, r.size)
}

pub open spec fn record_views(rs: Seq<ElfSymbolRecord>) -> Seq<RecordView> {
    rs.map_values(|r: ElfSymbolRecord| record_view(r))
}

/// The text symbols of the record views `rs`, in order, with demangled
/// names.
pub open spec fn view_text_symbols(rs: Seq<RecordView>) -> Seq<SymbolView>
    decreases rs.len(),
{
    if rs.len() == 0 {
        Seq::empty()
    } else {
        let rest = view_text_symbols(rs.drop_last());
        let r = rs.last();
        if r.0 == ElfSymbolKind::Text {
            rest.push((encode_utf8(demangled(r.1->Some_0)), r.2, r.3))
        } else {
            rest
        }
    }
}

/// Every text symbol among the record views `rs` has a readable name.
pub open spec fn view_names_readable(rs: Seq<RecordView>) -> bool {
    forall|i: int| 0 <= i < rs.len() && #[trigger] rs[i].0 == ElfSymbolKind::Text ==> rs[i].1 is Some
}

proof fn lemma_text_symbols_view(records: Seq<ElfSymbolRecord>)
    ensures
        text_names_readable(records) ==> text_symbols(records) == view_text_symbols(record_views(records)),
        text_names_readable(records) == view_names_readable(record_views(records)),
    decreases records.len(),
{
    let v = record_views(records);
    assert forall|i: int| 0 <= i < records.len() implies #[trigger] v[i] == record_view(records[i]) by {}
    if records.len() > 0 {
        lemma_text_symbols_view(records.drop_last());
        assert(record_views(records.drop_last()) =~= v.drop_last());
        if text_names_readable(records) {
            let d = records.drop_last();
            assert forall|i: int| 0 <= i < d.len() && #[trigger] d[i].kind == ElfSymbolKind::Text implies d[i].name is Some by {
                assert(records[i] == d[i]);
            }
            assert(v.last() == record_view(records.last()));
        }
    }
    assert(text_names_readable(records) == view_names_readable(v)) by {
        if text_names_readable(records) {
            assert forall|i: int| 0 <= i < v.len() && #[trigger] v[i].0 == ElfSymbolKind::Text implies v[i].1 is Some by {
                assert(records[i].kind == ElfSymbolKind::Text);
            }
        }
        if view_names_readable(v) {
            assert forall|i: int| 0 <= i < records.len() && #[trigger] records[i].kind == ElfSymbolKind::Text implies records[i].name is Some by {
                assert(v[i].0 == ElfSymbolKind::Text);
            }
        }
    }
}

#[verifier::external_type_specification]
#[verifier::external_body]
pub struct ExObjectSymbolKind(object::SymbolKind);

/// The symbols that `object`'s ELF reader finds in `image`: `None` when it
/// does not read `image` as a 64-bit little-endian ELF file, else the
/// entries of its symbol table in order (none without a symbol table).
pub uninterp spec fn elf_symbol_records(image: Seq<u8>) -> Option<Seq<RecordView>>;

/// The kind of `object::SymbolKind` `kind`; kinds that this version does not
/// know read as `Unknown`. Nothing is stated of it: the records it builds
/// are named as a whole by `elf_symbol_records`.
#[verifier::external_body]
fn symbol_kind(kind: object::SymbolKind) -> ElfSymbolKind {
    match kind {
        object::SymbolKind::Null => ElfSymbolKind::Null,
        object::SymbolKind::Text => ElfSymbolKind::Text,
        object::SymbolKind::Data => ElfSymbolKind::Data,
        object::SymbolKind::Section => ElfSymbolKind::Section,
        object::SymbolKind::File => ElfSymbolKind::File,
        object::SymbolKind::Label => ElfSymbolKind::Label,
        object::SymbolKind::Tls => ElfSymbolKind::Tls,
        _ => ElfSymbolKind::Unknown,
    }
}

/// `object::read::elf::ElfFile64::<LittleEndian>::parse(image)`, then the
/// symbols of its symbol table with their kind, name (`None` when
/// `ObjectSymbol::name` fails), address and size. The contract names the
/// result as a function of the image bytes alone.
#[verifier::external_body]
fn read_elf_symbols(image: &[u8]) -> (records: Option<Vec<ElfSymbolRecord>>)
    ensures
        records is None <==> elf_symbol_records(image@) is None,
        records matches Some(r) ==> record_views(r@) == elf_symbol_records(image@)->Some_0,
{
    let file = object::read::elf::ElfFile64::<object::LittleEndian>::parse(image).ok()?;
    Some(file.symbol_table().map_or(Vec::new(), |table| {
        table.symbols().map(|symbol| ElfSymbolRecord {
            kind: symbol_kind(symbol.kind()),
            name: symbol.name().ok().map(|name| name.to_string()),
            address: symbol.address(),
            size: symbol.size(),
        }).collect()
    }))
}

/// Why no symbol file was written for an image.
#[derive(Debug, Clone, Copy, PartialEq, Eq, Structural)]
pub enum ImageError {
    /// The image is not a 64-bit little-endian ELF file.
    NotElf,
    /// A text symbol's name could not be read.
    InvalidSymbolName,
    /// The symbol file would not fit its 32-bit offsets.
    TooLarge,
}

/// The symbol file for the ELF image `image`: its text symbols with
/// demangled names, sorted by address.
pub fn symbol_file_for_image(image: &[u8]) -> (file: Result<Vec<u8>, ImageError>)
    ensures
        elf_symbol_records(image@) is None ==> file == Err::<Vec<u8>, ImageError>(ImageError::NotElf),
        elf_symbol_records(image@) matches Some(rs) ==> {
            &&& !view_names_readable(rs) ==> file == Err::<Vec<u8>, ImageError>(ImageError::InvalidSymbolName)
            &&& view_names_readable(rs) && !fits(view_text_symbols(rs)) ==> file == Err::<Vec<u8>, ImageError>(ImageError::TooLarge)
            &&& view_names_readable(rs) && fits(view_text_symbols(rs)) ==> (file matches Ok(f) && f@
                == symbol_file_bytes(view_text_symbols(rs)))
        },
{
    let records = match read_elf_symbols(image) {
        Some(records) => records,
        None => {
            return Err(ImageError::NotElf);
        },
    };
    proof {
        lemma_text_symbols_view(records@);
    }
    let mut i: usize = 0;
    while i < records.len()
        invariant
            i <= records@.len(),
            elf_symbol_records(image@) == Some(record_views(records@)),
            text_names_readable(records@) == view_names_readable(record_views(records@)),
            forall|j: int| 0 <= j < i && #[trigger] records@[j].kind == ElfSymbolKind::Text ==> records@[j].name is Some,
        decreases records@.len() - i,
    {
        if records[i].kind == ElfSymbolKind::Text && records[i].name.is_none() {
            return Err(ImageError::InvalidSymbolName);
        }
        i = i + 1;
    }
    match symbols_from_elf_file(&records) {
        Some(file) => Ok(file),
        None => Err(ImageError::TooLarge),
    }
}

} // verus!
