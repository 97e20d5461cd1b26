//! Process bookkeeping that does not touch hardware: process state, how the
//! segments of an executable are placed, and naming addresses with the
//! executable's symbols.
use vstd::prelude::*;

use crate::elf::{
    entry_bytes, first_nul, ph_entsize, ph_num, ph_table, ph_table_ok, pttype_from, EType, PtType,
    name_lookup_ok, section_name_result, section_search, section_search_ok, sh_table_ok, first_symtab, le32, le64, section, sh_num, symbol_table_ok,
    symbol_type_from, ElfParser, SymbolType,
};
use crate::memory::address::{Address, VirtualAddress};
use crate::memory::address_space;
use crate::memory::Permissions;
use crate::elf;
use vstd::string::StringSliceAdditionalSpecFns;
use vstd::utf8::{decode_utf8, encode_utf8, valid_utf8};
use crate::stripper::{le_bytes64, push_u64};
use crate::backtrace::ksyms::{lemma_read_le64, read_u64};

verus! {

#[derive(Debug)]
pub enum Error {
    AddressSpaceError(address_space::Error),
    NoCurrentProcess,
    InvalidBase,
    ElfError(elf::Error),
    UnsupportedExecutable,
    UnalignedLoadableSegment,
    NoEntryPoint,
}

/// Whether a process runs, or the value it exited with.
#[derive(Debug, Clone, Copy, PartialEq, Eq, Structural)]
pub enum State {
    Running,
    Killed(u64),
}

/// The exit value of a process in `state`, once it has exited.
pub fn exit_code(state: State) -> (code: Option<u64>)
    ensures
        code == (match state {
            State::Killed(v) => Some(v),
            State::Running => None::<u64>,
        }),
{
    match state {
        State::Killed(return_value) => Some(return_value),
        State::Running => None,
    }
}

/// The identifier of a process.
#[derive(Clone, Debug, PartialEq, Eq, Structural)]
pub struct ProcessHandle(pub u64);

impl ProcessHandle {
    pub fn get_raw(&self) -> (raw: u64)
        ensures
            raw == self.0,
    {
        self.0
    }
}

/// The permissions that the flags of a loadable segment ask for, when the
/// kernel supports them: read-write, read-only, executable without write,
/// and read-write-execute.
pub open spec fn segment_permissions_spec(read: bool, write: bool, execute: bool) -> Option<Permissions> {
    if read && write && !execute {
        Some(Permissions::RW)
    } else if read && !write && !execute {
        Some(Permissions::RO)
    } else if !write && execute {
        Some(Permissions::RX)
    } else if read && write && execute {
        Some(Permissions::RWX)
    } else {
        None
    }
}

pub fn segment_permissions(flags: elf::Permissions) -> (permissions: Option<Permissions>)
    ensures
        permissions == segment_permissions_spec(flags.read, flags.write, flags.execute),
{
    match (flags.read, flags.write, flags.execute) {
        (true, true, false) => Some(Permissions::RW),
        (true, false, false) => Some(Permissions::RO),
        (_, false, true) => Some(Permissions::RX),
        (true, true, true) => Some(Permissions::RWX),
        _ => None,
    }
}

/// Where a segment linked at `vaddr` goes in a process loaded at `aslr`: it
/// must start on a page.
pub fn segment_address(vaddr: u64, aslr: u64) -> (result: Result<VirtualAddress, Error>)
    requires
        vaddr + aslr <= u64::MAX,
    ensures
        (vaddr + aslr) % 0x4000 == 0 ==> (result matches Ok(va) && va.addr() == vaddr + aslr),
        (vaddr + aslr) % 0x4000 != 0 ==> (result matches Err(Error::UnalignedLoadableSegment)),
{
    match VirtualAddress::try_from_ptr(vaddr + aslr) {
        Ok(va) => Ok(va),
        Err(_) => Err(Error::UnalignedLoadableSegment),
    }
}

/// The bytes of program header `i` of image `d`.
pub open spec fn program_header(d: Seq<u8>, i: int) -> Seq<u8> {
    entry_bytes(ph_table(d), ph_entsize(d), i)
}

/// Whether header `h` describes a loadable segment.
pub open spec fn is_loadable(h: Seq<u8>) -> bool {
    pttype_from(le32(h, 0)) == Ok::<PtType, elf::Error>(PtType::Load)
}

/// The permissions that the flags of header `h` ask for.
pub open spec fn header_permissions(h: Seq<u8>) -> Option<Permissions> {
    segment_permissions_spec(le32(h, 4) & 4 != 0, le32(h, 4) & 2 != 0, le32(h, 4) & 1 != 0)
}

/// A loadable segment that the kernel can place in a process loaded at
/// `aslr`: its bytes lie in the image, its address does not overflow and
/// its permissions are supported.
pub open spec fn loadable_segment_ok(d: Seq<u8>, h: Seq<u8>, aslr: u64) -> bool {
    &&& le64(h, 0x10) + aslr <= u64::MAX
    &&& le64(h, 0x08) + le64(h, 0x28) <= d.len()
    &&& header_permissions(h) is Some
    &&& sh_table_ok(d)
    &&& section_search_ok(d, le64(h, 0x10), 0)
    &&& section_search(d, le64(h, 0x10), 0) matches Ok(si) ==> name_lookup_ok(d, le32(section(d, si), 0) as int)
}

/// Where a segment goes, the bytes it takes from the image, its size in
/// memory, its permissions and the name of the section it holds.
pub struct SegmentLoad<'a> {
    pub address: VirtualAddress,
    pub data: &'a [u8],
    pub memory_size: u64,
    pub permissions: Permissions,
    pub name: Option<&'a str>,
}

pub open spec fn segment_load_view(s: SegmentLoad) -> (u64, Seq<u8>, u64, Permissions) {
    (s.address.addr(), s.data@, s.memory_size, s.permissions)
}

/// What loadable header `h` of image `d` asks for in a process loaded at
/// `aslr`, with `si` the index of the section that holds the segment.
pub open spec fn planned_segment(d: Seq<u8>, h: Seq<u8>, aslr: u64, si: int) -> PlannedSegment {
    (
        (le64(h, 0x10) + aslr) as u64,
        d.subrange(le64(h, 0x08) as int, le64(h, 0x08) + le64(h, 0x28)),
        le64(h, 0x20),
        header_permissions(h).unwrap(),
        si,
    )
}

/// A planned segment: its address, bytes, size in memory, permissions and
/// the index of the section that holds it.
pub type PlannedSegment = (u64, Seq<u8>, u64, Permissions, int);

/// The segments `v` are those that `p` plans for image `d`, each named by
/// the section that holds it.
pub open spec fn plan_matches(v: Seq<SegmentLoad>, p: Seq<PlannedSegment>, d: Seq<u8>) -> bool {
    &&& v.len() == p.len()
    &&& forall|k: int|
        0 <= k < v.len() ==> segment_load_view(#[trigger] v[k]) == (p[k].0, p[k].1, p[k].2, p[k].3)
            && section_name_result(d, le32(section(d, p[k].4), 0) as int, v[k].name)
}

/// The segments that the first `n` program headers of `d` ask for, in
/// header order; the first header that cannot be read, or a loadable one
/// that does not start on a page or whose section cannot be found, is the
/// error.
pub open spec fn load_plan_upto(d: Seq<u8>, aslr: u64, n: int) -> Result<Seq<PlannedSegment>, Error>
    decreases n,
{
    if n <= 0 {
        Ok(Seq::empty())
    } else {
        match load_plan_upto(d, aslr, n - 1) {
            Err(e) => Err(e),
            Ok(plan) => {
                let h = program_header(d, n - 1);
                match pttype_from(le32(h, 0)) {
                    Err(e) => Err(Error::ElfError(e)),
                    Ok(PtType::Load) => if (le64(h, 0x10) + aslr) % 0x4000 != 0 {
                        Err(Error::UnalignedLoadableSegment)
                    } else {
                        match section_search(d, le64(h, 0x10), 0) {
                            Err(e) => Err(Error::ElfError(e)),
                            Ok(si) => Ok(plan.push(planned_segment(d, h, aslr, si))),
                        }
                    },
                    Ok(_) => Ok(plan),
                }
            },
        }
    }
}

proof fn lemma_plan_error_stays(d: Seq<u8>, aslr: u64, n: int, m: int)
    requires
        0 <= n <= m,
        load_plan_upto(d, aslr, n) is Err,
    ensures
        load_plan_upto(d, aslr, m) == load_plan_upto(d, aslr, n),
    decreases m - n,
{
    if n < m {
        lemma_plan_error_stays(d, aslr, n, m - 1);
    }
}

proof fn lemma_program_header_len(d: Seq<u8>, i: int)
    requires
        ph_table_ok(d),
        0 <= i < ph_num(d),
    ensures
        program_header(d, i).len() == ph_entsize(d),
{
    let es = ph_entsize(d);
    let n = ph_num(d);
    assert(0 <= i * es && (i + 1) * es <= es * n && (i + 1) * es - i * es == es) by (nonlinear_arith)
        requires
            0 <= i < n,
            0 <= es,
    ;
}

/// The segments to load for an executable image, in the order of its
/// program headers: only executables and shared objects can be loaded,
/// and each loadable segment must start on a page once moved by `aslr`.
pub fn load_plan<'a>(parser: &ElfParser<'a>, aslr: u64) -> (plan: Result<Vec<SegmentLoad<'a>>, Error>)
    requires
        parser.wf(),
        ph_table_ok(parser.data()),
        ph_entsize(parser.data()) >= 0x30,
        forall|i: int|
            0 <= i < ph_num(parser.data()) && is_loadable(#[trigger] program_header(parser.data(), i))
                ==> loadable_segment_ok(parser.data(), program_header(parser.data(), i), aslr),
    ensures
        !(parser.spec_elf_type() is Executable || parser.spec_elf_type() is SharedObject) ==> (plan
            matches Err(Error::UnsupportedExecutable)),
        (parser.spec_elf_type() is Executable || parser.spec_elf_type() is SharedObject) ==> match load_plan_upto(
            parser.data(),
            aslr,
            ph_num(parser.data()),
        ) {
            Ok(p) => plan matches Ok(v) && plan_matches(v@, p, parser.data()),
            Err(e) => plan matches Err(r) && r == e,
        },
{
    let ghost d = parser.data();
    let elf_type = parser.elf_type();
    if !matches!(elf_type, EType::Executable | EType::SharedObject) {
        return Err(Error::UnsupportedExecutable);
    }
    let mut iter = parser.program_header_iter();
    let mut plan: Vec<SegmentLoad<'a>> = Vec::new();
    loop
        invariant
            d == parser.data(),
            parser.spec_elf_type() is Executable || parser.spec_elf_type() is SharedObject,
            parser.wf(),
            ph_table_ok(d),
            ph_entsize(d) >= 0x30,
            forall|i: int|
                0 <= i < ph_num(d) && is_loadable(#[trigger] program_header(d, i))
                    ==> loadable_segment_ok(d, program_header(d, i), aslr),
            iter.data() == ph_table(d),
            iter.count() == ph_num(d),
            iter.entry_size() == ph_entsize(d),
            0 <= iter.position() <= iter.count(),
            load_plan_upto(d, aslr, iter.position()) matches Ok(p) && plan_matches(plan@, p, d),
        decreases iter.count() - iter.position(),
    {
        let ghost i = iter.position();
        let next = iter.next();
        let header = match next {
            None => {
                return Ok(plan);
            },
            Some(h) => h,
        };
        proof {
            lemma_program_header_len(d, i);
            assert(header.bytes() == program_header(d, i));
        }
        let ty = header.ty();
        match ty {
            Err(e) => {
                proof {
                    lemma_plan_error_stays(d, aslr, i + 1, ph_num(d));
                }
                return Err(Error::ElfError(e));
            },
            Ok(PtType::Load) => {
                let vaddr = header.vaddr();
                let va = match segment_address(vaddr, aslr) {
                    Ok(va) => va,
                    Err(e) => {
                        proof {
                            lemma_plan_error_stays(d, aslr, i + 1, ph_num(d));
                        }
                        return Err(e);
                    },
                };
                let data = parser.get_segment_data(&header);
                let permissions = match segment_permissions(header.permissions()) {
                    Some(p) => p,
                    None => {
                        return Err(Error::UnsupportedExecutable);
                    },
                };
                let name = match parser.matching_section_name(&header) {
                    Ok(name) => name,
                    Err(e) => {
                        proof {
                            lemma_plan_error_stays(d, aslr, i + 1, ph_num(d));
                        }
                        return Err(Error::ElfError(e));
                    },
                };
                let memory_size = header.memsize();
                let ghost before = plan@;
                let ghost p0 = load_plan_upto(d, aslr, i).unwrap();
                plan.push(SegmentLoad { address: va, data, memory_size, permissions, name });
                proof {
                    let si = section_search(d, vaddr, 0).unwrap();
                    let p1 = p0.push(planned_segment(d, program_header(d, i), aslr, si));
                    assert(load_plan_upto(d, aslr, i + 1) == Ok::<Seq<PlannedSegment>, Error>(p1));
                    assert forall|k: int| 0 <= k < plan@.len() implies segment_load_view(#[trigger] plan@[k]) == (
                        p1[k].0,
                        p1[k].1,
                        p1[k].2,
                        p1[k].3,
                    ) && section_name_result(d, le32(section(d, p1[k].4), 0) as int, plan@[k].name) by {
                        if k < before.len() {
                            assert(plan@[k] == before[k]);
                            assert(p1[k] == p0[k]);
                        }
                    }
                }
            },
            Ok(_) => {},
        }
    }
}

/// The symbol table of an image: its bytes, the bytes of its name table
/// and the size of an entry, when the image has one with a name table.
pub open spec fn symtab_parts(d: Seq<u8>) -> Option<(Seq<u8>, Seq<u8>, int)> {
    match first_symtab(d, 0) {
        None => None,
        Some(s) => {
            let h = section(d, s);
            let link = le32(h, 0x28) as int;
            if link >= sh_num(d) {
                None
            } else {
                let strtab = section(d, link);
                Some(
                    (
                        d.subrange(le64(h, 0x18) as int, le64(h, 0x18) + le64(h, 0x20)),
                        d.subrange(le64(strtab, 0x18) as int, le64(strtab, 0x18) + le64(strtab, 0x20)),
                        le64(h, 0x38) as int,
                    ),
                )
            }
        },
    }
}

pub open spec fn is_function(e: Seq<u8>) -> bool {
    symbol_type_from(e[4]) matches Ok(SymbolType::Function)
}

pub open spec fn symbol_holds(e: Seq<u8>, a: int) -> bool {
    le64(e, 8) <= a < le64(e, 8) + le64(e, 16)
}

/// The bytes of the name of symbol `e`.
pub open spec fn symbol_name(strings: Seq<u8>, e: Seq<u8>) -> Seq<u8> {
    let start = le32(e, 0) as int;
    strings.subrange(start, start + first_nul(strings.skip(start)).unwrap())
}

/// The first function symbol from `i` on that holds `a` and has a UTF-8
/// name.
pub open spec fn first_named_function(t: Seq<u8>, strings: Seq<u8>, es: int, a: int, i: int) -> Option<int>
    decreases t.len() as int / es - i,
    when es > 0
{
    if i < 0 || i >= t.len() as int / es {
        None
    } else {
        let e = entry_bytes(t, es, i);
        if is_function(e) && symbol_holds(e, a) && valid_utf8(symbol_name(strings, e)) {
            Some(i)
        } else {
            first_named_function(t, strings, es, a, i + 1)
        }
    }
}

/// The entries of the symbol table that the search may read: entries are
/// at least 24 bytes, and every function symbol ends inside the address
/// space and names a zero-terminated string of the name table.
pub open spec fn symbols_readable(d: Seq<u8>) -> bool {
    match symtab_parts(d) {
        None => true,
        Some((t, strings, es)) => {
            &&& es >= 0x18
            &&& forall|i: int|
                0 <= i < t.len() as int / es ==> #[trigger] is_function(entry_bytes(t, es, i)) ==> {
                    let e = entry_bytes(t, es, i);
                    &&& le64(e, 8) + le64(e, 16) <= usize::MAX
                    &&& le32(e, 0) <= strings.len()
                    &&& first_nul(strings.skip(le32(e, 0) as int)) is Some
                }
        },
    }
}

proof fn lemma_entry_len(t: Seq<u8>, es: int, i: int)
    requires
        es > 0,
        0 <= i < t.len() as int / es,
    ensures
        entry_bytes(t, es, i).len() == es,
{
    assert((i + 1) * es <= t.len() && 0 <= i * es && (i + 1) * es - i * es == es) by (nonlinear_arith)
        requires
            es > 0,
            0 <= i < t.len() as int / es,
    ;
}

/// Names the addresses of a process from the symbols of its executable.
#[derive(Clone)]
pub struct ProcessSymbolicator<'a> {
    elf_parser: ElfParser<'a>,
    aslr_base: VirtualAddress,
}

impl<'a> ProcessSymbolicator<'a> {
    pub closed spec fn image(&self) -> Seq<u8> {
        self.elf_parser.data()
    }

    pub closed spec fn base(&self) -> u64 {
        self.aslr_base.addr()
    }

    pub closed spec fn parser_wf(&self) -> bool {
        self.elf_parser.wf()
    }

    pub fn new(elf_parser: ElfParser<'a>, aslr_base: VirtualAddress) -> (s: Self)
        ensures
            s.image() == elf_parser.data(),
            s.base() == aslr_base.addr(),
            s.parser_wf() == elf_parser.wf(),
    {
        Self { elf_parser, aslr_base }
    }

    /// The first function symbol, in table order, that holds `addr` and
    /// has a readable name, and the offset of `addr` into it.
    pub fn symbolicate(&self, addr: VirtualAddress) -> (result: Option<(String, usize)>)
        requires
            self.parser_wf(),
            symbol_table_ok(self.image()),
            symbols_readable(self.image()),
            addr.addr() > self.base(),
            addr.addr() - self.base() <= usize::MAX,
        ensures
            ({
                let a = addr.addr() - self.base();
                match symtab_parts(self.image()) {
                    None => result is None,
                    Some((t, strings, es)) => match first_named_function(t, strings, es, a, 0) {
                        None => result is None,
                        Some(i) => result matches Some(r) && r.0@ == decode_utf8(
                            symbol_name(strings, entry_bytes(t, es, i)),
                        ) && r.1 == a - le64(entry_bytes(t, es, i), 8),
                    },
                }
            }),
    {
        let a: u64 = addr.as_u64() - self.aslr_base.as_u64();
        let mut symbols = match self.elf_parser.symbol_table_iter() {
            Some(it) => it,
            None => {
                return None;
            },
        };
        let ghost d = self.image();
        let ghost parts = symtab_parts(d).unwrap();
        let ghost t = parts.0;
        let ghost strings = parts.1;
        let ghost es = parts.2;
        assert(symbols.data() == t && symbols.strdata() == strings && symbols.entry_size() == es);
        assert(symbols.count() == t.len() as int / es);
        loop
            invariant
                symbols.data() == t,
                symbols.strdata() == strings,
                symbols.entry_size() == es,
                es >= 0x18,
                symbols.count() == t.len() as int / es,
                0 <= symbols.position() <= symbols.count(),
                a == addr.addr() - self.base(),
                a <= usize::MAX,
                d == self.image(),
                symbols_readable(d),
                symtab_parts(d) == Some((t, strings, es)),
                first_named_function(t, strings, es, a as int, symbols.position()) == first_named_function(t, strings, es, a as int, 0),
            decreases symbols.count() - symbols.position(),
        {
            let ghost i = symbols.position();
            let symbol = match symbols.next() {
                Some(s) => s,
                None => {
                    assert(first_named_function(t, strings, es, a as int, i) is None);
                    return None;
                },
            };
            let ghost e = entry_bytes(t, es, i);
            assert(symbol.bytes() == e);
            proof {
                lemma_entry_len(t, es, i);
            }
            if matches!(symbol.ty(), Ok(SymbolType::Function)) {
                assert(is_function(e));
                let symbol_start = symbol.value();
                let symbol_size = symbol.size();
                if a >= symbol_start && a < symbol_start + symbol_size {
                    match symbol.name() {
                        Some(name) => {
                            proof {
                                crate::strings::lemma_decode_of_bytes(name);
                                assert(symbol_name(strings, e) == name.spec_bytes());
                                assert(first_named_function(t, strings, es, a as int, i) == Some(i));
                            }
                            return Some((name.to_owned(), (a - symbol_start) as usize));
                        },
                        None => {},
                    }
                }
            }
        }
    }
}


/// Size of the page that holds a process's arguments and environment.
pub const ARGS_PAGE_SIZE: u64 = 16384;

/// Where the argument page of a process lies, before the ASLR offset.
pub const ARGS_BASE: u64 = 0xF800_0000_0000;

/// The strings of the argument page: each argument, then each environment
/// variable as `key=value`, as UTF-8 bytes.
pub open spec fn arg_strings(args: Seq<String>, env: Seq<(String, String)>) -> Seq<Seq<u8>> {
    args.map_values(|a: String| encode_utf8(a@)) + env.map_values(
        |kv: (String, String)| encode_utf8(kv.0@) + seq![0x3du8] + encode_utf8(kv.1@),
    )
}

/// The strings back to back, each followed by a NUL byte.
pub open spec fn packed(ss: Seq<Seq<u8>>) -> Seq<u8>
    decreases ss.len(),
{
    if ss.len() == 0 {
        Seq::empty()
    } else {
        packed(ss.drop_last()) + ss.last() + seq![0u8]
    }
}

/// Offset of string `i` in the page.
pub open spec fn string_offset(ss: Seq<Seq<u8>>, i: int) -> int {
    packed(ss.take(i)).len() as int
}

/// `x` rounded up to a multiple of 8, the size of a pointer.
pub open spec fn align8(x: int) -> int {
    if x % 8 == 0 {
        x
    } else {
        x + 8 - x % 8
    }
}

/// The little-endian bytes of a run of pointers.
pub open spec fn pointer_bytes(ps: Seq<u64>) -> Seq<u8>
    decreases ps.len(),
{
    if ps.len() == 0 {
        Seq::empty()
    } else {
        pointer_bytes(ps.drop_last()) + le_bytes64(ps.last())
    }
}

/// The pointers to strings `first .. first + count` at `base`, then a null
/// pointer.
pub open spec fn string_pointers(ss: Seq<Seq<u8>>, first: int, count: int, base: u64) -> Seq<u64> {
    Seq::new(count as nat, |k: int| (base + string_offset(ss, first + k)) as u64).push(0u64)
}

/// Offset of the argument pointer array: after the strings, aligned.
pub open spec fn argv_offset(ss: Seq<Seq<u8>>) -> int {
    align8(packed(ss).len() as int)
}

/// Offset of the environment pointer array: after the argument pointers
/// and one zero byte, aligned.
pub open spec fn envp_offset(ss: Seq<Seq<u8>>, nargs: int) -> int {
    align8(argv_offset(ss) + 8 * (nargs + 1) + 1)
}

/// Where the page's contents end: after the environment pointers and one
/// zero byte.
pub open spec fn args_end(ss: Seq<Seq<u8>>, nargs: int) -> int {
    envp_offset(ss, nargs) + 8 * (ss.len() - nargs + 1) + 1
}

/// `n` zero bytes.
pub open spec fn zeros(n: int) -> Seq<u8> {
    Seq::new(n as nat, |i: int| 0u8)
}

/// The argument page: the strings, the argument pointers, a zero byte, the
/// environment pointers and a zero byte, each array aligned to 8 bytes,
/// and zeros up to the end of the page. When the environment pointers end
/// exactly at the end of the page, their closing zero byte falls past it
/// and is not part of the page.
pub open spec fn argument_page_bytes(ss: Seq<Seq<u8>>, nargs: int, base: u64) -> Seq<u8> {
    let l = packed(ss).len() as int;
    let a = argv_offset(ss);
    let argv = pointer_bytes(string_pointers(ss, 0, nargs, base));
    let e = envp_offset(ss, nargs);
    let envp = pointer_bytes(string_pointers(ss, nargs, ss.len() - nargs, base));
    let body = packed(ss) + zeros(a - l) + argv + seq![0u8] + zeros(e - (a + argv.len() + 1)) + envp;
    if args_end(ss, nargs) <= ARGS_PAGE_SIZE {
        body + seq![0u8] + zeros(ARGS_PAGE_SIZE - args_end(ss, nargs))
    } else {
        body
    }
}

proof fn lemma_pointer_bytes_len(ps: Seq<u64>)
    ensures
        pointer_bytes(ps).len() == 8 * ps.len(),
    decreases ps.len(),
{
    if ps.len() > 0 {
        lemma_pointer_bytes_len(ps.drop_last());
    }
}

proof fn lemma_packed_grows(ss: Seq<Seq<u8>>, i: int)
    requires
        0 <= i <= ss.len(),
    ensures
        packed(ss.take(i)).len() <= packed(ss).len(),
    decreases ss.len() - i,
{
    if i < ss.len() {
        lemma_packed_grows(ss, i + 1);
        assert(ss.take(i + 1).drop_last() =~= ss.take(i));
    } else {
        assert(ss.take(i) =~= ss);
    }
}

/// Appends the string `bytes` and a NUL byte.
fn push_string(out: &mut Vec<u8>, bytes: &[u8])
    ensures
        final(out)@ == old(out)@ + bytes@ + seq![0u8],
{
    let mut j: usize = 0;
    while j < bytes.len()
        invariant
            j <= bytes@.len(),
            out@ == old(out)@ + bytes@.subrange(0, j as int),
        decreases bytes@.len() - j,
    {
        out.push(bytes[j]);
        j = j + 1;
        assert(out@ =~= old(out)@ + bytes@.subrange(0, j as int));
    }
    out.push(0);
    assert(out@ =~= old(out)@ + bytes@ + seq![0u8]);
}

/// Appends zero bytes until `out` holds `len` bytes.
fn pad_to(out: &mut Vec<u8>, len: usize)
    requires
        old(out)@.len() <= len,
    ensures
        final(out)@ == old(out)@ + zeros(len - old(out)@.len()),
{
    while out.len() < len
        invariant
            old(out)@.len() <= out@.len() <= len,
            out@ == old(out)@ + zeros(out@.len() - old(out)@.len()),
        decreases len - out@.len(),
    {
        out.push(0);
        assert(out@ =~= old(out)@ + zeros(out@.len() - old(out)@.len()));
    }
}

/// Appends the pointers to the strings at `offsets[first .. first + count]`
/// from `base`, then a null pointer.
fn push_pointers(out: &mut Vec<u8>, offsets: &Vec<u64>, first: usize, count: usize, base: u64, Ghost(ss): Ghost<Seq<Seq<u8>>>)
    requires
        first + count <= offsets@.len(),
        forall|k: int| 0 <= k < offsets@.len() ==> #[trigger] offsets@[k] == string_offset(ss, k),
        forall|k: int| 0 <= k < offsets@.len() ==> base + #[trigger] offsets@[k] <= u64::MAX,
    ensures
        final(out)@ == old(out)@ + pointer_bytes(string_pointers(ss, first as int, count as int, base)),
{
    let ghost ps = string_pointers(ss, first as int, count as int, base);
    let n = offsets.len();
    let mut k: usize = 0;
    while k < count
        invariant
            k <= count,
            n == offsets@.len(),
            first + count <= offsets@.len(),
            forall|j: int| 0 <= j < offsets@.len() ==> #[trigger] offsets@[j] == string_offset(ss, j),
            forall|j: int| 0 <= j < offsets@.len() ==> base + #[trigger] offsets@[j] <= u64::MAX,
            ps == string_pointers(ss, first as int, count as int, base),
            out@ == old(out)@ + pointer_bytes(ps.take(k as int)),
        decreases count - k,
    {
        let p = base + offsets[first + k];
        push_u64(out, p);
        proof {
            assert(ps[k as int] == p);
            assert(ps.take(k + 1).drop_last() =~= ps.take(k as int));
        }
        k = k + 1;
    }
    push_u64(out, 0);
    proof {
        assert(ps.take(count as int + 1) =~= ps);
        assert(ps.take(count as int + 1).drop_last() =~= ps.take(count as int));
    }
}

/// Packs the strings of the argument page and records where each starts.
/// `None` when they do not fit the page.
#[verifier::rlimit(60)]
#[verifier::spinoff_prover]
fn pack_strings(args: &Vec<String>, env: &Vec<(String, String)>) -> (packed_strings: Option<(Vec<u8>, Vec<u64>)>)
    ensures
        ({
            let ss = arg_strings(args@, env@);
            &&& (packed(ss).len() <= ARGS_PAGE_SIZE <==> packed_strings is Some)
            &&& packed_strings matches Some((out, offsets)) ==> {
                &&& out@ == packed(ss)
                &&& offsets@.len() == ss.len()
                &&& forall|k: int| 0 <= k < ss.len() ==> #[trigger] offsets@[k] == string_offset(ss, k)
                &&& forall|k: int| 0 <= k < ss.len() ==> #[trigger] offsets@[k] <= ARGS_PAGE_SIZE
            }
        }),
{
    let ghost ss = arg_strings(args@, env@);
    let ghost nargs = args@.len() as int;
    let mut out: Vec<u8> = Vec::new();
    let mut offsets: Vec<u64> = Vec::new();
    let mut i: usize = 0;
    while i < args.len()
        invariant
            i <= args@.len(),
            ss == arg_strings(args@, env@),
            nargs == args@.len(),
            out@ == packed(ss.take(i as int)),
            out@.len() <= ARGS_PAGE_SIZE,
            offsets@.len() == i,
            forall|k: int| 0 <= k < i ==> #[trigger] offsets@[k] == string_offset(ss, k),
            forall|k: int| 0 <= k < i ==> #[trigger] offsets@[k] <= ARGS_PAGE_SIZE,
        decreases args@.len() - i,
    {
        let bytes = args[i].as_str().as_bytes();
        proof {
            assert(ss[i as int] == bytes@);
            assert(ss.take(i + 1).drop_last() =~= ss.take(i as int));
            lemma_packed_grows(ss, i + 1);
        }
        if bytes.len() >= ARGS_PAGE_SIZE as usize - out.len() {
            return None;
        }
        offsets.push(out.len() as u64);
        push_string(&mut out, bytes);
        i = i + 1;
    }
    let mut k: usize = 0;
    while k < env.len()
        invariant
            k <= env@.len(),
            ss == arg_strings(args@, env@),
            nargs == args@.len(),
            ss.len() == args@.len() + env@.len(),
            out@ == packed(ss.take(nargs + k)),
            out@.len() <= ARGS_PAGE_SIZE,
            offsets@.len() == nargs + k,
            forall|j: int| 0 <= j < nargs + k ==> #[trigger] offsets@[j] == string_offset(ss, j),
            forall|j: int| 0 <= j < nargs + k ==> #[trigger] offsets@[j] <= ARGS_PAGE_SIZE,
        decreases env@.len() - k,
    {
        let key = env[k].0.as_str().as_bytes();
        let value = env[k].1.as_str().as_bytes();
        proof {
            assert(ss[nargs + k] == key@ + seq![0x3du8] + value@);
            assert(ss.take(nargs + k + 1).drop_last() =~= ss.take(nargs + k));
            lemma_packed_grows(ss, nargs + k + 1);
        }
        if key.len() >= ARGS_PAGE_SIZE as usize - out.len() {
            return None;
        }
        if value.len() >= ARGS_PAGE_SIZE as usize - out.len() - key.len() - 1 {
            return None;
        }
        offsets.push(out.len() as u64);
        let ghost before = out@;
        let mut j: usize = 0;
        while j < key.len()
            invariant
                j <= key@.len(),
                out@ == before + key@.subrange(0, j as int),
            decreases key@.len() - j,
        {
            out.push(key[j]);
            j = j + 1;
            assert(out@ =~= before + key@.subrange(0, j as int));
        }
        out.push(0x3d);
        push_string(&mut out, value);
        proof {
            assert(out@ =~= before + (key@ + seq![0x3du8] + value@) + seq![0u8]);
        }
        k = k + 1;
    }
    proof {
        assert(ss.take(ss.len() as int) =~= ss);
    }
    Some((out, offsets))
}

/// Builds the argument page of a process whose page lies at `base`: the
/// bytes of the page, the number of arguments and where the argument and
/// environment pointer arrays lie. `None` when the contents do not fit the
/// page; the zero byte that closes the environment pointers may fall just
/// past it.
pub fn argument_page(args: &Vec<String>, env: &Vec<(String, String)>, base: u64) -> (page: Option<
    (Vec<u8>, usize, u64, u64),
>)
    requires
        base + ARGS_PAGE_SIZE <= u64::MAX,
    ensures
        ({
            let ss = arg_strings(args@, env@);
            let nargs = args@.len() as int;
            &&& (args_end(ss, nargs) <= ARGS_PAGE_SIZE + 1 <==> page is Some)
            &&& page matches Some((bytes, argc, argv, envp)) ==> {
                &&& bytes@ == argument_page_bytes(ss, nargs, base)
                &&& argc == args@.len()
                &&& argv == base + argv_offset(ss)
                &&& envp == base + envp_offset(ss, nargs)
            }
        }),
{
    let ghost ss = arg_strings(args@, env@);
    let ghost nargs = args@.len() as int;
    proof {
        lemma_args_end_bounds(ss, nargs);
    }
    let packed_strings = pack_strings(args, env);
    let (mut out, offsets) = match packed_strings {
        Some(p) => p,
        None => return None,
    };
    let nargs_exec = args.len();
    let nenv = env.len();
    let l = out.len() as u64;
    let argv_off = if l % 8 == 0 { l } else { l + 8 - l % 8 };
    if nargs_exec as u64 > ARGS_PAGE_SIZE || nenv as u64 > ARGS_PAGE_SIZE {
        return None;
    }
    let after_argv = argv_off + 8 * (nargs_exec as u64 + 1) + 1;
    let envp_off = if after_argv % 8 == 0 { after_argv } else { after_argv + 8 - after_argv % 8 };
    let end = envp_off + 8 * (nenv as u64 + 1) + 1;
    if end > ARGS_PAGE_SIZE + 1 {
        return None;
    }
    proof {
        lemma_pointer_bytes_len(string_pointers(ss, 0, nargs, base));
        lemma_pointer_bytes_len(string_pointers(ss, nargs, ss.len() - nargs, base));
    }
    pad_to(&mut out, argv_off as usize);
    push_pointers(&mut out, &offsets, 0, nargs_exec, base, Ghost(ss));
    out.push(0);
    pad_to(&mut out, envp_off as usize);
    push_pointers(&mut out, &offsets, nargs_exec, nenv, base, Ghost(ss));
    if end <= ARGS_PAGE_SIZE {
        out.push(0);
    }
    pad_to(&mut out, ARGS_PAGE_SIZE as usize);
    proof {
        assert(out@ =~= argument_page_bytes(ss, nargs, base));
    }
    Some((out, nargs_exec, base + argv_off, base + envp_off))
}

proof fn lemma_args_end_bounds(ss: Seq<Seq<u8>>, nargs: int)
    requires
        0 <= nargs <= ss.len(),
    ensures
        packed(ss).len() <= argv_offset(ss) < argv_offset(ss) + 8 * (nargs + 1) + 1 <= envp_offset(ss, nargs)
            < args_end(ss, nargs),
{
}

/// Offset in the argument page of the pointer to string `i`: the arguments'
/// pointers at `argv`, then the environment's at `envp`, for a page at
/// `base`.
pub open spec fn pointer_slot(base: u64, argv: u64, envp: u64, nargs: int, i: int) -> int {
    if i < nargs {
        argv - base + 8 * i
    } else {
        envp - base + 8 * (i - nargs)
    }
}

/// Offset in the page at `base` that the pointer stored at `slot` points to.
pub open spec fn pointed_offset(bytes: Seq<u8>, base: u64, slot: int) -> int {
    read_u64(bytes, slot) - base
}

proof fn lemma_packed_prefix(ss: Seq<Seq<u8>>, i: int)
    requires
        0 <= i <= ss.len(),
    ensures
        packed(ss.take(i)).len() <= packed(ss).len(),
        packed(ss).subrange(0, packed(ss.take(i)).len() as int) == packed(ss.take(i)),
    decreases ss.len() - i,
{
    if i < ss.len() {
        lemma_packed_prefix(ss, i + 1);
        let t = ss.take(i + 1);
        assert(t.drop_last() =~= ss.take(i));
        let q = packed(ss.take(i));
        let r = packed(t);
        assert(r == q + ss[i] + seq![0u8]);
        assert(packed(ss).subrange(0, q.len() as int) =~= r.subrange(0, q.len() as int));
        assert(r.subrange(0, q.len() as int) =~= q);
    } else {
        assert(ss.take(i) =~= ss);
        assert(packed(ss).subrange(0, packed(ss).len() as int) =~= packed(ss));
    }
}

/// String `i` lies in the packed strings at its offset, followed by a NUL,
/// and comes before every later string.
proof fn lemma_string_in_packed(ss: Seq<Seq<u8>>, i: int)
    requires
        0 <= i < ss.len(),
    ensures
        string_offset(ss, i) + ss[i].len() < packed(ss).len(),
        packed(ss).subrange(string_offset(ss, i), string_offset(ss, i) + ss[i].len()) == ss[i],
        packed(ss)[string_offset(ss, i) + ss[i].len()] == 0,
        forall|j: int| i < j <= ss.len() ==> string_offset(ss, i) < #[trigger] string_offset(ss, j),
{
    lemma_packed_prefix(ss, i + 1);
    let t = ss.take(i + 1);
    assert(t.drop_last() =~= ss.take(i));
    let q = packed(ss.take(i));
    let r = packed(t);
    assert(r == q + ss[i] + seq![0u8]);
    let o = q.len() as int;
    let n = ss[i].len() as int;
    assert(packed(ss).subrange(o, o + n) =~= r.subrange(o, o + n));
    assert(r.subrange(o, o + n) =~= ss[i]);
    assert(packed(ss)[o + n] == r[o + n]);
    assert forall|j: int| i < j <= ss.len() implies string_offset(ss, i) < #[trigger] string_offset(ss, j) by {
        let sj = ss.take(j);
        lemma_packed_grows(sj, i + 1);
        assert(sj.take(i + 1) =~= t);
    }
}

proof fn lemma_pointer_bytes_at(ps: Seq<u64>, k: int)
    requires
        0 <= k < ps.len(),
    ensures
        pointer_bytes(ps).subrange(8 * k, 8 * k + 8) == le_bytes64(ps[k]),
    decreases ps.len(),
{
    let d = ps.drop_last();
    lemma_pointer_bytes_len(d);
    lemma_pointer_bytes_len(ps);
    let pb = pointer_bytes(ps);
    assert(pb == pointer_bytes(d) + le_bytes64(ps.last()));
    if k < ps.len() - 1 {
        lemma_pointer_bytes_at(d, k);
        assert(pb.subrange(8 * k, 8 * k + 8) =~= pointer_bytes(d).subrange(8 * k, 8 * k + 8));
    } else {
        assert(pb.subrange(8 * k, 8 * k + 8) =~= le_bytes64(ps.last()));
    }
}

/// Where the parts of the argument page lie in its bytes.
proof fn lemma_page_layout(ss: Seq<Seq<u8>>, nargs: int, base: u64)
    requires
        0 <= nargs <= ss.len(),
        args_end(ss, nargs) <= ARGS_PAGE_SIZE + 1,
    ensures
        ({
            let bytes = argument_page_bytes(ss, nargs, base);
            let argv = pointer_bytes(string_pointers(ss, 0, nargs, base));
            let envp = pointer_bytes(string_pointers(ss, nargs, ss.len() - nargs, base));
            &&& bytes.len() >= envp_offset(ss, nargs) + envp.len()
            &&& argv.len() == 8 * (nargs + 1)
            &&& envp.len() == 8 * (ss.len() - nargs + 1)
            &&& forall|x: int| 0 <= x < packed(ss).len() ==> #[trigger] bytes[x] == packed(ss)[x]
            &&& forall|x: int| 0 <= x < argv.len() ==> #[trigger] bytes[argv_offset(ss) + x] == argv[x]
            &&& forall|x: int| 0 <= x < envp.len() ==> #[trigger] bytes[envp_offset(ss, nargs) + x] == envp[x]
        }),
{
    lemma_args_end_bounds(ss, nargs);
    let bytes = argument_page_bytes(ss, nargs, base);
    let ps_a = string_pointers(ss, 0, nargs, base);
    let ps_e = string_pointers(ss, nargs, ss.len() - nargs, base);
    lemma_pointer_bytes_len(ps_a);
    lemma_pointer_bytes_len(ps_e);
    let argv = pointer_bytes(ps_a);
    let envp = pointer_bytes(ps_e);
    let l = packed(ss).len() as int;
    let a = argv_offset(ss);
    let e = envp_offset(ss, nargs);
    let s1 = packed(ss) + zeros(a - l);
    let s2 = s1 + argv;
    let s3 = s2 + seq![0u8];
    let s4 = s3 + zeros(e - (a + argv.len() + 1));
    let body = s4 + envp;
    assert(body == packed(ss) + zeros(a - l) + argv + seq![0u8] + zeros(e - (a + argv.len() + 1)) + envp);
    assert(s4.len() == e);
    assert(forall|x: int| 0 <= x < body.len() ==> #[trigger] bytes[x] == body[x]);
    assert forall|x: int| 0 <= x < l implies #[trigger] bytes[x] == packed(ss)[x] by {
        assert(bytes[x] == body[x]);
        assert(body[x] == s4[x] && s4[x] == s3[x] && s3[x] == s2[x] && s2[x] == s1[x]);
    }
    assert forall|x: int| 0 <= x < argv.len() implies #[trigger] bytes[a + x] == argv[x] by {
        assert(bytes[a + x] == body[a + x]);
        assert(body[a + x] == s4[a + x] && s4[a + x] == s3[a + x] && s3[a + x] == s2[a + x]);
    }
    assert forall|x: int| 0 <= x < envp.len() implies #[trigger] bytes[e + x] == envp[x] by {
        assert(bytes[e + x] == body[e + x]);
    }
}

#[verifier::rlimit(40)]
proof fn lemma_pointer_value(ss: Seq<Seq<u8>>, nargs: int, base: u64, i: int)
    requires
        0 <= nargs <= ss.len(),
        0 <= i <= ss.len() + 1,
        base + ARGS_PAGE_SIZE <= u64::MAX,
        args_end(ss, nargs) <= ARGS_PAGE_SIZE + 1,
    ensures
        ({
            let bytes = argument_page_bytes(ss, nargs, base);
            let argv = (base + argv_offset(ss)) as u64;
            let envp = (base + envp_offset(ss, nargs)) as u64;
            let slot = pointer_slot(base, argv, envp, nargs, i);
            &&& i < ss.len() ==> 0 <= slot && slot + 8 <= bytes.len()
            &&& (i < ss.len() && i != nargs) || (i == nargs && nargs < ss.len()) ==> read_u64(bytes, slot) == base + string_offset(ss, i)
            &&& i == nargs ==> read_u64(bytes, argv - base + 8 * nargs) == 0
            &&& i == ss.len() + 1 ==> read_u64(bytes, envp - base + 8 * (ss.len() - nargs)) == 0
        }),
{
    lemma_args_end_bounds(ss, nargs);
    lemma_page_layout(ss, nargs, base);
    assert((base + argv_offset(ss)) as u64 == base + argv_offset(ss));
    assert((base + envp_offset(ss, nargs)) as u64 == base + envp_offset(ss, nargs));
    let bytes = argument_page_bytes(ss, nargs, base);
    let ps_a = string_pointers(ss, 0, nargs, base);
    let ps_e = string_pointers(ss, nargs, ss.len() - nargs, base);
    let pa = pointer_bytes(ps_a);
    let pe = pointer_bytes(ps_e);
    let a = argv_offset(ss);
    let e = envp_offset(ss, nargs);
    if i < ss.len() {
        lemma_string_in_packed(ss, i);
    }
    if i < nargs {
        lemma_pointer_bytes_at(ps_a, i);
        assert(bytes.subrange(a + 8 * i, a + 8 * i + 8) =~= pa.subrange(8 * i, 8 * i + 8));
        lemma_read_le64(bytes, a + 8 * i, ps_a[i]);
    } else if i <= ss.len() {
        let k = i - nargs;
        lemma_pointer_bytes_at(ps_e, k);
        assert(bytes.subrange(e + 8 * k, e + 8 * k + 8) =~= pe.subrange(8 * k, 8 * k + 8));
        lemma_read_le64(bytes, e + 8 * k, ps_e[k]);
    }
    if i == nargs {
        lemma_pointer_bytes_at(ps_a, nargs);
        assert(bytes.subrange(a + 8 * nargs, a + 8 * nargs + 8) =~= pa.subrange(8 * nargs, 8 * nargs + 8));
        lemma_read_le64(bytes, a + 8 * nargs, ps_a[nargs]);
    }
    if i == ss.len() + 1 {
        let m = ss.len() - nargs;
        lemma_pointer_bytes_at(ps_e, m);
        assert(bytes.subrange(e + 8 * m, e + 8 * m + 8) =~= pe.subrange(8 * m, 8 * m + 8));
        lemma_read_le64(bytes, e + 8 * m, ps_e[m]);
    }
}

/// The page's pointers find their strings, for any strings.
proof fn lemma_pointers_find_strings(ss: Seq<Seq<u8>>, nargs: int, base: u64)
    requires
        0 <= nargs <= ss.len(),
        base + ARGS_PAGE_SIZE <= u64::MAX,
        args_end(ss, nargs) <= ARGS_PAGE_SIZE + 1,
    ensures
        ({
            let bytes = argument_page_bytes(ss, nargs, base);
            let argv = (base + argv_offset(ss)) as u64;
            let envp = (base + envp_offset(ss, nargs)) as u64;
            &&& forall|i: int| 0 <= i < ss.len() ==> {
                let slot = #[trigger] pointer_slot(base, argv, envp, nargs, i);
                let p = pointed_offset(bytes, base, slot);
                &&& 0 <= slot && slot + 8 <= bytes.len()
                &&& 0 <= p && p + ss[i].len() < bytes.len()
                &&& bytes.subrange(p, p + ss[i].len()) == ss[i]
                &&& bytes[p + ss[i].len()] == 0
            }
            &&& forall|i: int, j: int| 0 <= i < j < ss.len() ==> pointed_offset(bytes, base, #[trigger] pointer_slot(base, argv, envp, nargs, i))
                < pointed_offset(bytes, base, #[trigger] pointer_slot(base, argv, envp, nargs, j))
            &&& read_u64(bytes, argv - base + 8 * nargs) == 0
            &&& read_u64(bytes, envp - base + 8 * (ss.len() - nargs)) == 0
        }),
{
    let bytes = argument_page_bytes(ss, nargs, base);
    let argv = (base + argv_offset(ss)) as u64;
    let envp = (base + envp_offset(ss, nargs)) as u64;
    lemma_args_end_bounds(ss, nargs);
    lemma_page_layout(ss, nargs, base);
    assert forall|i: int| 0 <= i < ss.len() implies {
        let slot = #[trigger] pointer_slot(base, argv, envp, nargs, i);
        let p = pointed_offset(bytes, base, slot);
        &&& 0 <= slot && slot + 8 <= bytes.len()
        &&& 0 <= p && p + ss[i].len() < bytes.len()
        &&& bytes.subrange(p, p + ss[i].len()) == ss[i]
        &&& bytes[p + ss[i].len()] == 0
    } by {
        lemma_pointer_value(ss, nargs, base, i);
        lemma_string_in_packed(ss, i);
        let p = string_offset(ss, i);
        let n = ss[i].len() as int;
        assert(bytes.subrange(p, p + n) =~= packed(ss).subrange(p, p + n));
        assert(bytes[p + n] == packed(ss)[p + n]);
    }
    assert forall|i: int, j: int| 0 <= i < j < ss.len() implies pointed_offset(bytes, base, #[trigger] pointer_slot(base, argv, envp, nargs, i))
        < pointed_offset(bytes, base, #[trigger] pointer_slot(base, argv, envp, nargs, j)) by {
        lemma_pointer_value(ss, nargs, base, i);
        lemma_pointer_value(ss, nargs, base, j);
        lemma_string_in_packed(ss, i);
    }
    lemma_pointer_value(ss, nargs, base, nargs);
    lemma_pointer_value(ss, nargs, base, ss.len() + 1 as int);
}

/// Every pointer of the argument page points at its own string: the
/// arguments' pointers, in order, at the arguments and the environment's
/// at the `key=value` strings, each read back from the page up to a NUL;
/// the strings lie in the page in the order of their pointers, so no two
/// strings share a pointer; and each pointer array ends with a null
/// pointer.
pub proof fn law_argument_pointers_find_their_strings(
    args: Seq<String>,
    env: Seq<(String, String)>,
    base: u64,
    bytes: Seq<u8>,
    argv: u64,
    envp: u64,
)
    requires
        base + ARGS_PAGE_SIZE <= u64::MAX,
        args_end(arg_strings(args, env), args.len() as int) <= ARGS_PAGE_SIZE + 1,
        bytes == argument_page_bytes(arg_strings(args, env), args.len() as int, base),
        argv == base + argv_offset(arg_strings(args, env)),
        envp == base + envp_offset(arg_strings(args, env), args.len() as int),
    ensures
        ({
            let ss = arg_strings(args, env);
            let nargs = args.len() as int;
            &&& forall|i: int| 0 <= i < ss.len() ==> {
                let slot = #[trigger] pointer_slot(base, argv, envp, nargs, i);
                let p = pointed_offset(bytes, base, slot);
                &&& 0 <= slot && slot + 8 <= bytes.len()
                &&& 0 <= p && p + ss[i].len() < bytes.len()
                &&& bytes.subrange(p, p + ss[i].len()) == ss[i]
                &&& bytes[p + ss[i].len()] == 0
            }
            &&& forall|i: int, j: int| 0 <= i < j < ss.len() ==> pointed_offset(bytes, base, #[trigger] pointer_slot(base, argv, envp, nargs, i))
                < pointed_offset(bytes, base, #[trigger] pointer_slot(base, argv, envp, nargs, j))
            &&& read_u64(bytes, argv - base + 8 * nargs) == 0
            &&& read_u64(bytes, envp - base + 8 * (ss.len() - nargs)) == 0
        }),
{
    let ss = arg_strings(args, env);
    assert(ss.len() == args.len() + env.len());
    lemma_pointers_find_strings(ss, args.len() as int, base);
}

} // verus!
