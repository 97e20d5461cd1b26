//! Reader for 64-bit little-endian ELF images: the file header, program and
//! section headers, and the symbol table.
use vstd::prelude::*;

use crate::strings::from_utf8;
use vstd::string::StringSliceAdditionalSpecFns;
use vstd::utf8::valid_utf8;

verus! {

/// A 16-bit little-endian value at `o`.
pub open spec fn le16(d: Seq<u8>, o: int) -> u16 {
    (d[o] as int + 256 * (d[o + 1] as int)) as u16
}

/// A 32-bit little-endian value at `o`.
pub open spec fn le32(d: Seq<u8>, o: int) -> u32 {
    (le16(d, o) as int + 0x1_0000 * (le16(d, o + 2) as int)) as u32
}

/// A 64-bit little-endian value at `o`.
pub open spec fn le64(d: Seq<u8>, o: int) -> u64 {
    (le32(d, o) as int + 0x1_0000_0000 * (le32(d, o + 4) as int)) as u64
}

fn read_half(data: &[u8], o: usize) -> (v: u16)
    requires
        o + 2 <= data@.len(),
    ensures
        v == le16(data@, o as int),
{
    data[o] as u16 + (data[o + 1] as u16) * 256
}

fn read_word(data: &[u8], o: usize) -> (v: u32)
    requires
        o + 4 <= data@.len(),
    ensures
        v == le32(data@, o as int),
{
    let len = data.len();
    assert(o + 4 <= len);
    read_half(data, o) as u32 + (read_half(data, o + 2) as u32) * 0x1_0000
}

fn read_xword(data: &[u8], o: usize) -> (v: u64)
    requires
        o + 8 <= data@.len(),
    ensures
        v == le64(data@, o as int),
{
    let len = data.len();
    assert(o + 8 <= len);
    read_word(data, o) as u64 + (read_word(data, o + 4) as u64) * 0x1_0000_0000
}

#[derive(Debug)]
pub enum Error {
    NotAnElfFile,
    InvalidElfClass(u8),
    InvalidElfEndianness(u8),
    InvalidElfType(u16),
    InvalidElfMachine(u16),
    InvalidPType(u32),
    InvalidShType(u32),
    InvalidSymbolType(u8),
    UnsupportedElfClass(EClass),
    UnsupportedElfEndianness(EData),
    NoMatchingSection,
}

#[derive(Debug, Copy, Clone)]
pub enum EClass {
    Elf32,
    Elf64,
}

pub open spec fn eclass_from(value: u8) -> Result<EClass, Error> {
    if value == 1 {
        Ok(EClass::Elf32)
    } else if value == 2 {
        Ok(EClass::Elf64)
    } else {
        Err(Error::InvalidElfClass(value))
    }
}

impl EClass {
    pub fn try_from(value: u8) -> (r: Result<Self, Error>)
        ensures
            r == eclass_from(value),
    {
        match value {
            1 => Ok(EClass::Elf32),
            2 => Ok(EClass::Elf64),
            _ => Err(Error::InvalidElfClass(value)),
        }
    }
}

#[derive(Debug, Copy, Clone)]
pub enum EData {
    LittleEndian,
    BigEndian,
}

pub open spec fn edata_from(value: u8) -> Result<EData, Error> {
    if value == 1 {
        Ok(EData::LittleEndian)
    } else if value == 2 {
        Ok(EData::BigEndian)
    } else {
        Err(Error::InvalidElfEndianness(value))
    }
}

impl EData {
    pub fn try_from(value: u8) -> (r: Result<Self, Error>)
        ensures
            r == edata_from(value),
    {
        match value {
            1 => Ok(EData::LittleEndian),
            2 => Ok(EData::BigEndian),
            _ => Err(Error::InvalidElfEndianness(value)),
        }
    }
}

#[derive(Debug, Copy, Clone)]
pub enum EType {
    Relocatable,
    Executable,
    SharedObject,
    Core,
}

pub open spec fn etype_from(value: u16) -> Result<EType, Error> {
    if value == 1 {
        Ok(EType::Relocatable)
    } else if value == 2 {
        Ok(EType::Executable)
    } else if value == 3 {
        Ok(EType::SharedObject)
    } else if value == 4 {
        Ok(EType::Core)
    } else {
        Err(Error::InvalidElfType(value))
    }
}

impl EType {
    pub fn try_from(value: u16) -> (r: Result<Self, Error>)
        ensures
            r == etype_from(value),
    {
        match value {
            1 => Ok(EType::Relocatable),
            2 => Ok(EType::Executable),
            3 => Ok(EType::SharedObject),
            4 => Ok(EType::Core),
            _ => Err(Error::InvalidElfType(value)),
        }
    }
}

#[derive(Debug, Copy, Clone)]
pub enum EMachine {
    AARCH64,
}

pub open spec fn emachine_from(value: u16) -> Result<EMachine, Error> {
    if value == 183 {
        Ok(EMachine::AARCH64)
    } else {
        Err(Error::InvalidElfMachine(value))
    }
}

impl EMachine {
    pub fn try_from(value: u16) -> (r: Result<Self, Error>)
        ensures
            r == emachine_from(value),
    {
        match value {
            183 => Ok(EMachine::AARCH64),
            _ => Err(Error::InvalidElfMachine(value)),
        }
    }
}

#[derive(Debug, Copy, Clone)]
pub enum PtType {
    Null,
    Load,
    Dynamic,
    Interpreter,
    Note,
    Shlib,
    Phdr,
    Tls,
}

pub open spec fn pttype_from(value: u32) -> Result<PtType, Error> {
    if value == 0 {
        Ok(PtType::Null)
    } else if value == 1 {
        Ok(PtType::Load)
    } else if value == 2 {
        Ok(PtType::Dynamic)
    } else if value == 3 {
        Ok(PtType::Interpreter)
    } else if value == 4 {
        Ok(PtType::Note)
    } else if value == 5 {
        Ok(PtType::Shlib)
    } else if value == 6 {
        Ok(PtType::Phdr)
    } else if value == 7 {
        Ok(PtType::Tls)
    } else {
        Err(Error::InvalidPType(value))
    }
}

impl PtType {
    pub fn try_from(value: u32) -> (r: Result<Self, Error>)
        ensures
            r == pttype_from(value),
    {
        match value {
            0 => Ok(PtType::Null),
            1 => Ok(PtType::Load),
            2 => Ok(PtType::Dynamic),
            3 => Ok(PtType::Interpreter),
            4 => Ok(PtType::Note),
            5 => Ok(PtType::Shlib),
            6 => Ok(PtType::Phdr),
            7 => Ok(PtType::Tls),
            _ => Err(Error::InvalidPType(value)),
        }
    }
}

#[derive(Debug, Copy, Clone)]
pub enum ShType {
    Null,
    Progbits,
    SymTab,
    StrTab,
    RelA,
    Hash,
    Dynamic,
    Note,
    NoBits,
    Rel,
}

pub open spec fn shtype_from(value: u32) -> Result<ShType, Error> {
    if value == 0 {
        Ok(ShType::Null)
    } else if value == 1 {
        Ok(ShType::Progbits)
    } else if value == 2 {
        Ok(ShType::SymTab)
    } else if value == 3 {
        Ok(ShType::StrTab)
    } else if value == 4 {
        Ok(ShType::RelA)
    } else if value == 5 {
        Ok(ShType::Hash)
    } else if value == 6 {
        Ok(ShType::Dynamic)
    } else if value == 7 {
        Ok(ShType::Note)
    } else if value == 8 {
        Ok(ShType::NoBits)
    } else if value == 9 {
        Ok(ShType::Rel)
    } else {
        Err(Error::InvalidShType(value))
    }
}

impl ShType {
    pub fn try_from(value: u32) -> (r: Result<Self, Error>)
        ensures
            r == shtype_from(value),
    {
        match value {
            0 => Ok(ShType::Null),
            1 => Ok(ShType::Progbits),
            2 => Ok(ShType::SymTab),
            3 => Ok(ShType::StrTab),
            4 => Ok(ShType::RelA),
            5 => Ok(ShType::Hash),
            6 => Ok(ShType::Dynamic),
            7 => Ok(ShType::Note),
            8 => Ok(ShType::NoBits),
            9 => Ok(ShType::Rel),
            _ => Err(Error::InvalidShType(value)),
        }
    }
}

#[derive(Debug, Copy, Clone)]
pub enum SymbolType {
    NoType,
    Object,
    Function,
    Section,
    File,
    Common,
    Tls,
    LoOS,
    HiOS,
    LoProc,
    HiProc,
}

/// The symbol type held in the low four bits of a symbol's info byte.
pub open spec fn symbol_type_from(info: u8) -> Result<SymbolType, Error> {
    let t = info % 16;
    if t == 0 {
        Ok(SymbolType::NoType)
    } else if t == 1 {
        Ok(SymbolType::Object)
    } else if t == 2 {
        Ok(SymbolType::Function)
    } else if t == 3 {
        Ok(SymbolType::Section)
    } else if t == 4 {
        Ok(SymbolType::File)
    } else if t == 5 {
        Ok(SymbolType::Common)
    } else if t == 6 {
        Ok(SymbolType::Tls)
    } else if t == 10 {
        Ok(SymbolType::LoOS)
    } else if t == 12 {
        Ok(SymbolType::HiOS)
    } else if t == 13 {
        Ok(SymbolType::LoProc)
    } else if t == 15 {
        Ok(SymbolType::HiProc)
    } else {
        Err(Error::InvalidSymbolType(t))
    }
}

impl SymbolType {
    pub fn try_from(value: u8) -> (r: Result<Self, Error>)
        ensures
            r == symbol_type_from(value),
    {
        let symbol_type = value & 0xf;
        assert(symbol_type == value % 16) by (bit_vector)
            requires
                symbol_type == value & 0xf,
        ;
        match symbol_type {
            0 => Ok(SymbolType::NoType),
            1 => Ok(SymbolType::Object),
            2 => Ok(SymbolType::Function),
            3 => Ok(SymbolType::Section),
            4 => Ok(SymbolType::File),
            5 => Ok(SymbolType::Common),
            6 => Ok(SymbolType::Tls),
            10 => Ok(SymbolType::LoOS),
            12 => Ok(SymbolType::HiOS),
            13 => Ok(SymbolType::LoProc),
            15 => Ok(SymbolType::HiProc),
            _ => Err(Error::InvalidSymbolType(symbol_type)),
        }
    }
}

/// Segment permission flags.
pub struct Permissions {
    pub read: bool,
    pub write: bool,
    pub execute: bool,
}

pub const E_CLASS: usize = 0x04;
pub const E_DATA: usize = 0x05;
pub const E_TYPE: usize = 16;
pub const E_MACHINE: usize = 18;
pub const E_ENTRY: usize = 0x18;
pub const E_PHOFF: usize = 0x20;
pub const E_SHOFF: usize = 0x28;
pub const E_PHENTSIZE: usize = 0x36;
pub const E_PHNUM: usize = 0x38;
pub const E_SHENTSIZE: usize = 0x3A;
pub const E_SHNUM: usize = 0x3C;
pub const E_SHSTRNDX: usize = 0x3E;

/// Size of the ELF64 file header.
pub const HEADER_SIZE: usize = 0x40;

/// The identification bytes say: ELF magic, 64-bit class, little endian.
pub open spec fn elf64_le_ident(d: Seq<u8>) -> bool {
    &&& d.len() >= 16
    &&& elf_magic(d)
    &&& d[E_CLASS as int] == 2
    &&& d[E_DATA as int] == 1
}

pub open spec fn elf_magic(d: Seq<u8>) -> bool {
    d[0] == 0x7f && d[1] == 0x45 && d[2] == 0x4c && d[3] == 0x46
}

/// Inputs whose header the parser can read without running past the data.
pub open spec fn elf_header_readable(d: Seq<u8>) -> bool {
    elf64_le_ident(d) ==> d.len() >= 18 && (etype_from(le16(d, E_TYPE as int)) is Ok ==> d.len()
        >= 20)
}

/// What parsing the file header gives: the file type and machine, or the
/// first problem found.
pub open spec fn elf_header(d: Seq<u8>) -> Result<(EType, EMachine), Error> {
    if d.len() < 16 || !elf_magic(d) {
        Err(Error::NotAnElfFile)
    } else {
        match eclass_from(d[E_CLASS as int]) {
            Err(e) => Err(e),
            Ok(EClass::Elf32) => Err(Error::UnsupportedElfClass(EClass::Elf32)),
            Ok(EClass::Elf64) => match edata_from(d[E_DATA as int]) {
                Err(e) => Err(e),
                Ok(EData::BigEndian) => Err(Error::UnsupportedElfEndianness(EData::BigEndian)),
                Ok(EData::LittleEndian) => match etype_from(le16(d, E_TYPE as int)) {
                    Err(e) => Err(e),
                    Ok(t) => match emachine_from(le16(d, E_MACHINE as int)) {
                        Err(e) => Err(e),
                        Ok(m) => Ok((t, m)),
                    },
                },
            },
        }
    }
}

/// A parsed ELF64 little-endian image.
#[derive(Clone)]
pub struct ElfParser<'a> {
    elf_data: &'a [u8],
    class: EClass,
    ty: EType,
    machine: EMachine,
}

impl<'a> ElfParser<'a> {
    /// The parser reads 64-bit images only.
    pub closed spec fn wf(&self) -> bool {
        self.class is Elf64
    }

    /// The image.
    pub closed spec fn data(&self) -> Seq<u8> {
        self.elf_data@
    }

    pub closed spec fn spec_elf_type(&self) -> EType {
        self.ty
    }

    pub closed spec fn spec_machine(&self) -> EMachine {
        self.machine
    }

    pub fn from_slice(elf_data: &'a [u8]) -> (result: Result<Self, Error>)
        requires
            elf_header_readable(elf_data@),
        ensures
            match elf_header(elf_data@) {
                Ok((t, m)) => result matches Ok(p) && p.wf() && p.data() == elf_data@
                    && p.spec_elf_type() == t && p.spec_machine() == m,
                Err(e) => result matches Err(r) && r == e,
            },
    {
        if elf_data.len() < 16 {
            return Err(Error::NotAnElfFile);
        }
        if elf_data[0] != 0x7f || elf_data[1] != 0x45 || elf_data[2] != 0x4c || elf_data[3]
            != 0x46 {
            return Err(Error::NotAnElfFile);
        }
        let class = match EClass::try_from(elf_data[E_CLASS]) {
            Ok(c) => c,
            Err(e) => {
                return Err(e);
            },
        };
        if !matches!(class, EClass::Elf64) {
            return Err(Error::UnsupportedElfClass(class));
        }
        let data = match EData::try_from(elf_data[E_DATA]) {
            Ok(d) => d,
            Err(e) => {
                return Err(e);
            },
        };
        if !matches!(data, EData::LittleEndian) {
            return Err(Error::UnsupportedElfEndianness(data));
        }
        let ty = match EType::try_from(read_half(elf_data, E_TYPE)) {
            Ok(t) => t,
            Err(e) => {
                return Err(e);
            },
        };
        let machine = match EMachine::try_from(read_half(elf_data, E_MACHINE)) {
            Ok(m) => m,
            Err(e) => {
                return Err(e);
            },
        };
        Ok(Self { elf_data, class, ty, machine })
    }

    pub fn elf_type(&self) -> (t: EType)
        ensures
            t == self.spec_elf_type(),
    {
        self.ty
    }

    pub fn machine(&self) -> (m: EMachine)
        ensures
            m == self.spec_machine(),
    {
        self.machine
    }

    pub fn entry_point(&self) -> (entry: u64)
        requires
            self.wf(),
            self.data().len() >= HEADER_SIZE,
        ensures
            entry == le64(self.data(), E_ENTRY as int),
    {
        match self.class {
            EClass::Elf64 => read_xword(self.elf_data, E_ENTRY),
            EClass::Elf32 => {
                assert(false);
                0
            },
        }
    }
}


/// Bytes of entry `i` of a table whose entries are `es` bytes long.
pub open spec fn entry_bytes(table: Seq<u8>, es: int, i: int) -> Seq<u8> {
    table.subrange(i * es, (i + 1) * es)
}

pub open spec fn ph_off(d: Seq<u8>) -> int {
    le64(d, E_PHOFF as int) as int
}

pub open spec fn ph_entsize(d: Seq<u8>) -> int {
    le16(d, E_PHENTSIZE as int) as int
}

pub open spec fn ph_num(d: Seq<u8>) -> int {
    le16(d, E_PHNUM as int) as int
}

/// The program header table lies inside the image.
pub open spec fn ph_table_ok(d: Seq<u8>) -> bool {
    &&& d.len() >= E_PHNUM + 2
    &&& ph_off(d) + ph_entsize(d) * ph_num(d) <= d.len()
}

/// The bytes of the program header table.
pub open spec fn ph_table(d: Seq<u8>) -> Seq<u8> {
    d.subrange(ph_off(d), ph_off(d) + ph_entsize(d) * ph_num(d))
}

pub open spec fn sh_off(d: Seq<u8>) -> int {
    le64(d, E_SHOFF as int) as int
}

pub open spec fn sh_entsize(d: Seq<u8>) -> int {
    le16(d, E_SHENTSIZE as int) as int
}

pub open spec fn sh_num(d: Seq<u8>) -> int {
    le16(d, E_SHNUM as int) as int
}

/// The section header table lies inside the image.
pub open spec fn sh_table_ok(d: Seq<u8>) -> bool {
    &&& d.len() >= E_SHNUM + 2
    &&& sh_off(d) + sh_entsize(d) * sh_num(d) <= d.len()
}

/// The bytes of the section header table.
pub open spec fn sh_table(d: Seq<u8>) -> Seq<u8> {
    d.subrange(sh_off(d), sh_off(d) + sh_entsize(d) * sh_num(d))
}

/// The bytes of section header `i`.
pub open spec fn section(d: Seq<u8>, i: int) -> Seq<u8> {
    entry_bytes(sh_table(d), sh_entsize(d), i)
}

proof fn lemma_entry_in_table(n: int, es: int, i: int)
    requires
        0 <= i < n,
        0 <= es,
    ensures
        0 <= i * es,
        i * es + es == (i + 1) * es,
        (i + 1) * es <= n * es,
        n * es == es * n,
{
    assert(n * es == es * n) by (nonlinear_arith);
    assert(0 <= i * es) by (nonlinear_arith)
        requires
            0 <= i,
            0 <= es,
    ;
    assert((i + 1) * es <= n * es) by (nonlinear_arith)
        requires
            i + 1 <= n,
            0 <= es,
    ;
    assert(i * es + es == (i + 1) * es) by (nonlinear_arith);
}

proof fn lemma_section_len(d: Seq<u8>, i: int)
    requires
        sh_table_ok(d),
        0 <= i < sh_num(d),
    ensures
        section(d, i).len() == sh_entsize(d),
{
    lemma_entry_in_table(sh_num(d), sh_entsize(d), i);
}

/// Index of the first zero byte of `s`.
pub open spec fn first_nul(s: Seq<u8>) -> Option<int>
    decreases s.len(),
{
    if s.len() == 0 {
        None
    } else if s[0] == 0 {
        Some(0)
    } else {
        match first_nul(s.skip(1)) {
            Some(k) => Some(k + 1),
            None => None,
        }
    }
}

proof fn lemma_first_nul(s: Seq<u8>)
    ensures
        first_nul(s) matches Some(k) ==> 0 <= k < s.len() && s[k] == 0 && forall|j: int|
            0 <= j < k ==> s[j] != 0,
    decreases s.len(),
{
    if s.len() > 0 && s[0] != 0 {
        lemma_first_nul(s.skip(1));
        if let Some(k) = first_nul(s.skip(1)) {
            assert forall|j: int| 0 <= j < k + 1 implies s[j] != 0 by {
                if j > 0 {
                    assert(s[j] == s.skip(1)[j - 1]);
                }
            }
        }
    }
}

/// The zero-terminated string that starts at `start`, as `r` reports it:
/// present exactly when its bytes are valid UTF-8.
pub open spec fn c_str_result(d: Seq<u8>, start: int, r: Option<&str>) -> bool {
    let bytes = d.subrange(start, start + first_nul(d.skip(start)).unwrap());
    &&& (r is Some <==> valid_utf8(bytes))
    &&& (r matches Some(s) ==> s.spec_bytes() == bytes)
}

/// The zero-terminated string at `start` in `data`.
fn c_str<'b>(data: &'b [u8], start: usize) -> (r: Option<&'b str>)
    requires
        start <= data@.len(),
        first_nul(data@.skip(start as int)) is Some,
    ensures
        c_str_result(data@, start as int, r),
{
    let rest = &data[start..data.len()];
    assert(rest@ == data@.skip(start as int));
    proof {
        lemma_first_nul(rest@);
    }
    let ghost k = first_nul(rest@).unwrap();
    let mut length: usize = 0;
    while rest[length] != 0
        invariant
            k == first_nul(rest@).unwrap(),
            0 <= k < rest@.len(),
            rest@[k] == 0,
            forall|j: int| 0 <= j < k ==> rest@[j] != 0,
            length <= k,
        decreases k - length,
    {
        length = length + 1;
    }
    let bytes = &rest[0..length];
    assert(bytes@ == data@.subrange(start as int, start + k));
    from_utf8(bytes)
}

/// A program header.
pub struct ProgramHeader<'a> {
    pheader_data: &'a [u8],
}

impl<'a> ProgramHeader<'a> {
    pub closed spec fn bytes(&self) -> Seq<u8> {
        self.pheader_data@
    }

    pub fn ty(&self) -> (r: Result<PtType, Error>)
        requires
            self.bytes().len() >= 4,
        ensures
            r == pttype_from(le32(self.bytes(), 0)),
    {
        PtType::try_from(read_word(self.pheader_data, 0x00))
    }

    pub fn file_offset(&self) -> (v: u64)
        requires
            self.bytes().len() >= 0x10,
        ensures
            v == le64(self.bytes(), 0x08),
    {
        read_xword(self.pheader_data, 0x08)
    }

    pub fn vaddr(&self) -> (v: u64)
        requires
            self.bytes().len() >= 0x18,
        ensures
            v == le64(self.bytes(), 0x10),
    {
        read_xword(self.pheader_data, 0x10)
    }

    pub fn paddr(&self) -> (v: u64)
        requires
            self.bytes().len() >= 0x20,
        ensures
            v == le64(self.bytes(), 0x18),
    {
        read_xword(self.pheader_data, 0x18)
    }

    pub fn memsize(&self) -> (v: u64)
        requires
            self.bytes().len() >= 0x28,
        ensures
            v == le64(self.bytes(), 0x20),
    {
        read_xword(self.pheader_data, 0x20)
    }

    pub fn filesize(&self) -> (v: u64)
        requires
            self.bytes().len() >= 0x30,
        ensures
            v == le64(self.bytes(), 0x28),
    {
        read_xword(self.pheader_data, 0x28)
    }

    pub fn permissions(&self) -> (p: Permissions)
        requires
            self.bytes().len() >= 8,
        ensures
            p.read == (le32(self.bytes(), 4) & 4 != 0),
            p.write == (le32(self.bytes(), 4) & 2 != 0),
            p.execute == (le32(self.bytes(), 4) & 1 != 0),
    {
        let flags = read_word(self.pheader_data, 0x04);
        let read = (flags & 4) != 0;
        let write = (flags & 2) != 0;
        let execute = (flags & 1) != 0;
        Permissions { read, write, execute }
    }
}

/// A section header.
pub struct SectionHeader<'a> {
    section_header_data: &'a [u8],
}

impl<'a> SectionHeader<'a> {
    pub closed spec fn bytes(&self) -> Seq<u8> {
        self.section_header_data@
    }

    pub fn name_idx(&self) -> (v: u32)
        requires
            self.bytes().len() >= 4,
        ensures
            v == le32(self.bytes(), 0),
    {
        read_word(self.section_header_data, 0x00)
    }

    pub fn ty(&self) -> (r: Result<ShType, Error>)
        requires
            self.bytes().len() >= 8,
        ensures
            r == shtype_from(le32(self.bytes(), 4)),
    {
        ShType::try_from(read_word(self.section_header_data, 0x04))
    }

    pub fn vaddr(&self) -> (v: u64)
        requires
            self.bytes().len() >= 0x18,
        ensures
            v == le64(self.bytes(), 0x10),
    {
        read_xword(self.section_header_data, 0x10)
    }

    pub fn offset(&self) -> (v: u64)
        requires
            self.bytes().len() >= 0x20,
        ensures
            v == le64(self.bytes(), 0x18),
    {
        read_xword(self.section_header_data, 0x18)
    }

    pub fn size(&self) -> (v: u64)
        requires
            self.bytes().len() >= 0x28,
        ensures
            v == le64(self.bytes(), 0x20),
    {
        read_xword(self.section_header_data, 0x20)
    }

    pub fn link(&self) -> (v: u32)
        requires
            self.bytes().len() >= 0x2c,
        ensures
            v == le32(self.bytes(), 0x28),
    {
        read_word(self.section_header_data, 0x28)
    }

    pub fn entry_size(&self) -> (v: u64)
        requires
            self.bytes().len() >= 0x40,
        ensures
            v == le64(self.bytes(), 0x38),
    {
        read_xword(self.section_header_data, 0x38)
    }
}

/// Iterator over the entries of the program header table.
pub struct ProgramHeaderIter<'a> {
    pheader_data: &'a [u8],
    num_entries: u16,
    entry_size: u16,
    current_entry: u16,
}

impl<'a> ProgramHeaderIter<'a> {
    #[verifier::type_invariant]
    spec fn table_fits(&self) -> bool {
        &&& self.num_entries * self.entry_size == self.pheader_data@.len()
        &&& self.current_entry <= self.num_entries
    }

    /// The whole table.
    pub closed spec fn data(&self) -> Seq<u8> {
        self.pheader_data@
    }

    pub closed spec fn count(&self) -> int {
        self.num_entries as int
    }

    pub closed spec fn entry_size(&self) -> int {
        self.entry_size as int
    }

    /// Index of the next entry.
    pub closed spec fn position(&self) -> int {
        self.current_entry as int
    }

    pub fn next(&mut self) -> (header: Option<ProgramHeader<'a>>)
        ensures
            final(self).data() == old(self).data(),
            final(self).count() == old(self).count(),
            final(self).entry_size() == old(self).entry_size(),
            old(self).position() < old(self).count() ==> (header matches Some(h) && h.bytes()
                == entry_bytes(old(self).data(), old(self).entry_size(), old(self).position())
                && final(self).position() == old(self).position() + 1),
            old(self).position() >= old(self).count() ==> header is None && final(self).position()
                == old(self).position(),
    {
        proof {
            use_type_invariant(&*self);
        }
        if self.current_entry < self.num_entries {
            proof {
                lemma_entry_in_table(
                    self.num_entries as int,
                    self.entry_size as int,
                    self.current_entry as int,
                );
            }
            let len = self.pheader_data.len();
            assert(self.current_entry * self.entry_size + self.entry_size <= len);
            let start = self.current_entry as usize * self.entry_size as usize;
            let end = start + self.entry_size as usize;
            let data = &self.pheader_data[start..end];
            self.current_entry = self.current_entry + 1;
            return Some(ProgramHeader { pheader_data: data });
        }
        None
    }
}

/// Iterator over the entries of the section header table.
pub struct SectionHeaderIter<'a> {
    section_header_data: &'a [u8],
    num_entries: u16,
    entry_size: u16,
    current_entry: u16,
}

impl<'a> SectionHeaderIter<'a> {
    #[verifier::type_invariant]
    spec fn table_fits(&self) -> bool {
        &&& self.num_entries * self.entry_size == self.section_header_data@.len()
        &&& self.current_entry <= self.num_entries
    }

    /// The whole table.
    pub closed spec fn data(&self) -> Seq<u8> {
        self.section_header_data@
    }

    pub closed spec fn count(&self) -> int {
        self.num_entries as int
    }

    pub closed spec fn entry_size(&self) -> int {
        self.entry_size as int
    }

    /// Index of the next entry.
    pub closed spec fn position(&self) -> int {
        self.current_entry as int
    }

    pub fn next(&mut self) -> (header: Option<SectionHeader<'a>>)
        ensures
            final(self).data() == old(self).data(),
            final(self).count() == old(self).count(),
            final(self).entry_size() == old(self).entry_size(),
            old(self).position() < old(self).count() ==> (header matches Some(h) && h.bytes()
                == entry_bytes(old(self).data(), old(self).entry_size(), old(self).position())
                && final(self).position() == old(self).position() + 1),
            old(self).position() >= old(self).count() ==> header is None && final(self).position()
                == old(self).position(),
    {
        proof {
            use_type_invariant(&*self);
        }
        if self.current_entry < self.num_entries {
            proof {
                lemma_entry_in_table(
                    self.num_entries as int,
                    self.entry_size as int,
                    self.current_entry as int,
                );
            }
            let len = self.section_header_data.len();
            assert(self.current_entry * self.entry_size + self.entry_size <= len);
            let start = self.current_entry as usize * self.entry_size as usize;
            let end = start + self.entry_size as usize;
            let data = &self.section_header_data[start..end];
            self.current_entry = self.current_entry + 1;
            return Some(SectionHeader { section_header_data: data });
        }
        None
    }

    /// Skips `n` entries and yields the one after them.
    pub fn nth(&mut self, n: usize) -> (header: Option<SectionHeader<'a>>)
        ensures
            final(self).data() == old(self).data(),
            final(self).count() == old(self).count(),
            final(self).entry_size() == old(self).entry_size(),
            old(self).position() + n < old(self).count() ==> (header matches Some(h) && h.bytes()
                == entry_bytes(old(self).data(), old(self).entry_size(), old(self).position() + n)
                && final(self).position() == old(self).position() + n + 1),
            old(self).position() + n >= old(self).count() ==> header is None
                && final(self).position() == old(self).count(),
    {
        proof {
            use_type_invariant(&*self);
        }
        let ghost start = self.current_entry as int;
        let mut skipped: usize = 0;
        while skipped < n
            invariant
                self.data() == old(self).data(),
                self.count() == old(self).count(),
                self.entry_size() == old(self).entry_size(),
                start == old(self).position(),
                skipped <= n,
                self.position() == start + skipped <= self.count() || (start + skipped
                    > self.count() && self.position() == self.count()),
            decreases n - skipped,
        {
            proof {
                use_type_invariant(&*self);
            }
            if self.next().is_none() {
                return None;
            }
            skipped = skipped + 1;
        }
        self.next()
    }
}


/// Index of the section that names the sections, when the header gives one
/// that exists.
pub open spec fn strtab_index(d: Seq<u8>) -> Option<int> {
    let idx = le16(d, E_SHSTRNDX as int) as int;
    if idx != 0 && idx < sh_num(d) {
        Some(idx)
    } else {
        None
    }
}

/// Where the name at `name_index` of the section-name table starts, when
/// that table exists and is a string table.
pub open spec fn section_name_start(d: Seq<u8>, name_index: int) -> Option<int> {
    match strtab_index(d) {
        None => None,
        Some(s) => match shtype_from(le32(section(d, s), 4)) {
            Ok(ShType::StrTab) => Some(le64(section(d, s), 0x18) + name_index),
            _ => None,
        },
    }
}

/// Looking up a section name reads only inside the image.
pub open spec fn name_lookup_ok(d: Seq<u8>, name_index: int) -> bool {
    &&& d.len() >= HEADER_SIZE
    &&& le16(d, E_SHSTRNDX as int) != 0 ==> sh_table_ok(d)
    &&& strtab_index(d) is Some ==> sh_entsize(d) >= 8
    &&& section_name_start(d, name_index) matches Some(start) ==> {
        &&& sh_entsize(d) >= 0x20
        &&& start <= d.len()
        &&& first_nul(d.skip(start)) is Some
    }
}

/// The section name at `name_index` as `r` reports it.
pub open spec fn section_name_result(d: Seq<u8>, name_index: int, r: Option<&str>) -> bool {
    match section_name_start(d, name_index) {
        None => r is None,
        Some(start) => c_str_result(d, start, r),
    }
}

/// The first section from `i` on that holds program bits at `vaddr`, or the
/// error that stops the search.
pub open spec fn section_search(d: Seq<u8>, vaddr: u64, i: int) -> Result<int, Error>
    decreases sh_num(d) - i,
{
    if i < 0 || i >= sh_num(d) {
        Err(Error::NoMatchingSection)
    } else {
        match shtype_from(le32(section(d, i), 4)) {
            Err(e) => Err(e),
            Ok(t) => if (t is Progbits) && le64(section(d, i), 0x10) == vaddr {
                Ok(i)
            } else {
                section_search(d, vaddr, i + 1)
            },
        }
    }
}

/// The search from `i` reads only fields that the section headers hold.
pub open spec fn section_search_ok(d: Seq<u8>, vaddr: u64, i: int) -> bool
    decreases sh_num(d) - i,
{
    if i < 0 || i >= sh_num(d) {
        true
    } else {
        &&& sh_entsize(d) >= 8
        &&& match shtype_from(le32(section(d, i), 4)) {
            Err(_) => true,
            Ok(t) => {
                &&& (t is Progbits) ==> sh_entsize(d) >= 0x18
                &&& !((t is Progbits) && le64(section(d, i), 0x10) == vaddr) ==> section_search_ok(
                    d,
                    vaddr,
                    i + 1,
                )
            },
        }
    }
}

/// The first symbol table section from `i` on.
pub open spec fn first_symtab(d: Seq<u8>, i: int) -> Option<int>
    decreases sh_num(d) - i,
{
    if i < 0 || i >= sh_num(d) {
        None
    } else if shtype_from(le32(section(d, i), 4)) matches Ok(ShType::SymTab) {
        Some(i)
    } else {
        first_symtab(d, i + 1)
    }
}

/// Building the symbol table iterator reads only inside the image.
pub open spec fn symbol_table_ok(d: Seq<u8>) -> bool {
    &&& sh_table_ok(d)
    &&& sh_num(d) > 0 ==> sh_entsize(d) >= 8
    &&& first_symtab(d, 0) matches Some(s) ==> {
        let h = section(d, s);
        let link = le32(h, 0x28) as int;
        &&& sh_entsize(d) >= 0x2c
        &&& link < sh_num(d) ==> {
            let strtab = section(d, link);
            &&& sh_entsize(d) >= 0x40
            &&& le64(h, 0x18) + le64(h, 0x20) <= d.len()
            &&& le64(strtab, 0x18) + le64(strtab, 0x20) <= d.len()
            &&& 0 < le64(h, 0x38) <= usize::MAX
        }
    }
}

impl<'a> ElfParser<'a> {
    pub fn program_header_iter(&self) -> (iter: ProgramHeaderIter<'a>)
        requires
            self.wf(),
            ph_table_ok(self.data()),
        ensures
            iter.data() == ph_table(self.data()),
            iter.count() == ph_num(self.data()),
            iter.entry_size() == ph_entsize(self.data()),
            iter.position() == 0,
    {
        let phoff = read_xword(self.elf_data, E_PHOFF);
        let phsize = read_half(self.elf_data, E_PHENTSIZE);
        let phnum = read_half(self.elf_data, E_PHNUM);
        let len = self.elf_data.len();
        assert(phsize * phnum == phnum * phsize) by (nonlinear_arith);
        let start = phoff as usize;
        let end = start + (phsize as usize * phnum as usize);
        ProgramHeaderIter {
            pheader_data: &self.elf_data[start..end],
            num_entries: phnum,
            entry_size: phsize,
            current_entry: 0,
        }
    }

    pub fn section_header_iter(&self) -> (iter: SectionHeaderIter<'a>)
        requires
            self.wf(),
            sh_table_ok(self.data()),
        ensures
            iter.data() == sh_table(self.data()),
            iter.count() == sh_num(self.data()),
            iter.entry_size() == sh_entsize(self.data()),
            iter.position() == 0,
    {
        let shoff = read_xword(self.elf_data, E_SHOFF);
        let shsize = read_half(self.elf_data, E_SHENTSIZE);
        let shnum = read_half(self.elf_data, E_SHNUM);
        let len = self.elf_data.len();
        assert(shsize * shnum == shnum * shsize) by (nonlinear_arith);
        let start = shoff as usize;
        let end = start + (shsize as usize * shnum as usize);
        SectionHeaderIter {
            section_header_data: &self.elf_data[start..end],
            num_entries: shnum,
            entry_size: shsize,
            current_entry: 0,
        }
    }

    /// The file bytes of the segment that `program_header` describes.
    pub fn get_segment_data(&self, program_header: &ProgramHeader) -> (segment: &'a [u8])
        requires
            program_header.bytes().len() >= 0x30,
            le64(program_header.bytes(), 0x08) + le64(program_header.bytes(), 0x28)
                <= self.data().len(),
        ensures
            segment@ == self.data().subrange(
                le64(program_header.bytes(), 0x08) as int,
                le64(program_header.bytes(), 0x08) + le64(program_header.bytes(), 0x28),
            ),
    {
        let len = self.elf_data.len();
        let file_offset = program_header.file_offset() as usize;
        let file_size = program_header.filesize() as usize;
        &self.elf_data[file_offset..file_offset + file_size]
    }

    fn get_str_table_name_section(&self) -> (header: Option<SectionHeader<'a>>)
        requires
            self.wf(),
            self.data().len() >= HEADER_SIZE,
            le16(self.data(), E_SHSTRNDX as int) != 0 ==> sh_table_ok(self.data()),
        ensures
            match strtab_index(self.data()) {
                None => header is None,
                Some(s) => header matches Some(h) && h.bytes() == section(self.data(), s),
            },
    {
        let index = read_half(self.elf_data, E_SHSTRNDX) as usize;
        if index != 0 {
            self.section_header_iter().nth(index)
        } else {
            None
        }
    }

    fn find_section_name_by_index(&self, name_index: usize) -> (name: Option<&'a str>)
        requires
            self.wf(),
            name_lookup_ok(self.data(), name_index as int),
        ensures
            section_name_result(self.data(), name_index as int, name),
    {
        let section = match self.get_str_table_name_section() {
            Some(section) => section,
            None => {
                return None;
            },
        };
        proof {
            lemma_section_len(self.data(), strtab_index(self.data()).unwrap());
        }
        match section.ty() {
            Ok(ShType::StrTab) => {},
            _ => {
                return None;
            },
        }
        let len = self.elf_data.len();
        let offset = section.offset() as usize + name_index;
        c_str(self.elf_data, offset)
    }

    /// The name of the section that holds program bits at the virtual
    /// address of `program_header`.
    pub fn matching_section_name(&self, program_header: &ProgramHeader) -> (result: Result<
        Option<&'a str>,
        Error,
    >)
        requires
            self.wf(),
            program_header.bytes().len() >= 0x18,
            sh_table_ok(self.data()),
            section_search_ok(self.data(), le64(program_header.bytes(), 0x10), 0),
            section_search(self.data(), le64(program_header.bytes(), 0x10), 0) matches Ok(i)
                ==> name_lookup_ok(self.data(), le32(section(self.data(), i), 0) as int),
        ensures
            match section_search(self.data(), le64(program_header.bytes(), 0x10), 0) {
                Ok(i) => result matches Ok(name) && section_name_result(
                    self.data(),
                    le32(section(self.data(), i), 0) as int,
                    name,
                ),
                Err(e) => result matches Err(r) && r == e,
            },
    {
        let ghost d = self.data();
        let vaddr = program_header.vaddr();
        let mut iter = self.section_header_iter();
        loop
            invariant
                self.wf(),
                d == self.data(),
                sh_table_ok(d),
                vaddr == le64(program_header.bytes(), 0x10),
                iter.data() == sh_table(d),
                iter.count() == sh_num(d),
                iter.entry_size() == sh_entsize(d),
                0 <= iter.position() <= iter.count(),
                section_search_ok(d, vaddr, iter.position()),
                section_search(d, vaddr, iter.position()) == section_search(d, vaddr, 0),
                section_search(d, vaddr, 0) matches Ok(i) ==> name_lookup_ok(
                    d,
                    le32(section(d, i), 0) as int,
                ),
            decreases iter.count() - iter.position(),
        {
            let ghost i = iter.position();
            let section = match iter.next() {
                Some(section) => section,
                None => {
                    return Err(Error::NoMatchingSection);
                },
            };
            proof {
                lemma_section_len(d, i);
            }
            let ty = match section.ty() {
                Ok(t) => t,
                Err(e) => {
                    return Err(e);
                },
            };
            if matches!(ty, ShType::Progbits) && section.vaddr() == vaddr {
                let name_idx = section.name_idx() as usize;
                return Ok(self.find_section_name_by_index(name_idx));
            }
        }
    }

    /// The first section header of symbol table type.
    fn find_symtab(&self) -> (symtab: Option<SectionHeader<'a>>)
        requires
            self.wf(),
            sh_table_ok(self.data()),
            sh_num(self.data()) > 0 ==> sh_entsize(self.data()) >= 8,
        ensures
            match first_symtab(self.data(), 0) {
                None => symtab is None,
                Some(s) => symtab matches Some(h) && h.bytes() == section(self.data(), s),
            },
    {
        let ghost d = self.data();
        let mut sections = self.section_header_iter();
        loop
            invariant
                self.wf(),
                d == self.data(),
                sh_table_ok(d),
                sh_num(d) > 0 ==> sh_entsize(d) >= 8,
                sections.data() == sh_table(d),
                sections.count() == sh_num(d),
                sections.entry_size() == sh_entsize(d),
                0 <= sections.position() <= sections.count(),
                first_symtab(d, sections.position()) == first_symtab(d, 0),
            decreases sections.count() - sections.position(),
        {
            let ghost i = sections.position();
            match sections.next() {
                Some(section) => {
                    proof {
                        lemma_section_len(d, i);
                    }
                    if matches!(section.ty(), Ok(ShType::SymTab)) {
                        return Some(section);
                    }
                },
                None => {
                    return None;
                },
            }
        }
    }

    pub fn symbol_table_iter(&self) -> (iter: Option<SymbolTableIter<'a>>)
        requires
            self.wf(),
            symbol_table_ok(self.data()),
        ensures
            match first_symtab(self.data(), 0) {
                None => iter is None,
                Some(s) => {
                    let h = section(self.data(), s);
                    let link = le32(h, 0x28) as int;
                    if link >= sh_num(self.data()) {
                        iter is None
                    } else {
                        let strtab = section(self.data(), link);
                        iter matches Some(it) && it.data() == self.data().subrange(
                            le64(h, 0x18) as int,
                            le64(h, 0x18) + le64(h, 0x20),
                        ) && it.strdata() == self.data().subrange(
                            le64(strtab, 0x18) as int,
                            le64(strtab, 0x18) + le64(strtab, 0x20),
                        ) && it.entry_size() == le64(h, 0x38) && it.count() == le64(h, 0x20)
                            / le64(h, 0x38) && it.position() == 0
                    }
                },
            },
    {
        let ghost d = self.data();
        let symtab = match self.find_symtab() {
            Some(symtab) => symtab,
            None => {
                return None;
            },
        };
        let ghost s = first_symtab(d, 0).unwrap();
        proof {
            lemma_first_symtab_bounds(d, 0);
            lemma_section_len(d, s);
        }
        let symbol_table_offset = symtab.offset();
        let symbol_table_size = symtab.size();
        let link = symtab.link() as usize;
        let strtab = match self.section_header_iter().nth(link) {
            Some(strtab) => strtab,
            None => {
                return None;
            },
        };
        proof {
            lemma_section_len(d, link as int);
            assert(symtab.bytes() == section(d, s));
            assert(strtab.bytes() == section(d, link as int));
            assert(link as int == le32(section(d, s), 0x28) as int);
        }
        let len = self.elf_data.len();
        let symbol_strtable_offset = strtab.offset() as usize;
        let symbol_strtable_size = strtab.size() as usize;
        let symbol_table_offset = symbol_table_offset as usize;
        let symbol_table_size = symbol_table_size as usize;
        let symbol_table_data = &self.elf_data[symbol_table_offset..symbol_table_offset
            + symbol_table_size];
        let symbol_strtable_data = &self.elf_data[symbol_strtable_offset..symbol_strtable_offset
            + symbol_strtable_size];
        let entry_size = symtab.entry_size() as usize;
        let num_entries = symbol_table_size / entry_size;
        proof {
            assert(num_entries * entry_size <= symbol_table_size) by (nonlinear_arith)
                requires
                    num_entries == symbol_table_size / entry_size,
                    entry_size > 0,
            ;
        }
        Some(
            SymbolTableIter {
                data: symbol_table_data,
                strdata: symbol_strtable_data,
                num_entries,
                entry_size,
                index: 0,
            },
        )
    }
}

proof fn lemma_first_symtab_bounds(d: Seq<u8>, i: int)
    ensures
        first_symtab(d, i) matches Some(s) ==> i <= s < sh_num(d) && 0 <= s,
    decreases sh_num(d) - i,
{
    if 0 <= i < sh_num(d) && !(shtype_from(le32(section(d, i), 4)) matches Ok(ShType::SymTab)) {
        lemma_first_symtab_bounds(d, i + 1);
    }
}

/// An entry of the symbol table.
pub struct SymbolEntry<'a> {
    data: &'a [u8],
    strdata: &'a [u8],
}

impl<'a> SymbolEntry<'a> {
    pub closed spec fn bytes(&self) -> Seq<u8> {
        self.data@
    }

    /// The string table that names the symbol.
    pub closed spec fn strings(&self) -> Seq<u8> {
        self.strdata@
    }

    pub fn ty(&self) -> (r: Result<SymbolType, Error>)
        requires
            self.bytes().len() > 4,
        ensures
            r == symbol_type_from(self.bytes()[4]),
    {
        SymbolType::try_from(self.data[4])
    }

    pub fn value(&self) -> (v: u64)
        requires
            self.bytes().len() >= 0x10,
        ensures
            v == le64(self.bytes(), 0x08),
    {
        read_xword(self.data, 0x08)
    }

    pub fn size(&self) -> (v: u64)
        requires
            self.bytes().len() >= 0x18,
        ensures
            v == le64(self.bytes(), 0x10),
    {
        read_xword(self.data, 0x10)
    }

    /// The symbol name, when it is valid UTF-8.
    pub fn name(&self) -> (name: Option<&'a str>)
        requires
            self.bytes().len() >= 4,
            le32(self.bytes(), 0) <= self.strings().len(),
            first_nul(self.strings().skip(le32(self.bytes(), 0) as int)) is Some,
        ensures
            c_str_result(self.strings(), le32(self.bytes(), 0) as int, name),
    {
        let name_idx = read_word(self.data, 0x00) as usize;
        c_str(self.strdata, name_idx)
    }
}

/// Iterator over the symbol table.
pub struct SymbolTableIter<'a> {
    data: &'a [u8],
    strdata: &'a [u8],
    entry_size: usize,
    num_entries: usize,
    index: usize,
}

impl<'a> SymbolTableIter<'a> {
    #[verifier::type_invariant]
    spec fn table_fits(&self) -> bool {
        &&& self.num_entries * self.entry_size <= self.data@.len()
    }

    /// The bytes of the symbol table.
    pub closed spec fn data(&self) -> Seq<u8> {
        self.data@
    }

    /// The bytes of the string table that names the symbols.
    pub closed spec fn strdata(&self) -> Seq<u8> {
        self.strdata@
    }

    pub closed spec fn count(&self) -> int {
        self.num_entries as int
    }

    pub closed spec fn entry_size(&self) -> int {
        self.entry_size as int
    }

    /// Index of the next entry.
    pub closed spec fn position(&self) -> int {
        self.index as int
    }

    pub fn next(&mut self) -> (entry: Option<SymbolEntry<'a>>)
        ensures
            final(self).data() == old(self).data(),
            final(self).strdata() == old(self).strdata(),
            final(self).count() == old(self).count(),
            final(self).entry_size() == old(self).entry_size(),
            old(self).position() < old(self).count() ==> (entry matches Some(e) && e.bytes()
                == entry_bytes(old(self).data(), old(self).entry_size(), old(self).position())
                && e.strings() == old(self).strdata() && final(self).position() == old(self).position() + 1),
            old(self).position() >= old(self).count() ==> entry is None && final(self).position()
                == old(self).position(),
    {
        proof {
            use_type_invariant(&*self);
        }
        if self.index >= self.num_entries {
            return None;
        }
        proof {
            lemma_entry_in_table(self.num_entries as int, self.entry_size as int, self.index as int);
        }
        let len = self.data.len();
        let symbol_entry_data = &self.data[self.index * self.entry_size..(self.index + 1)
            * self.entry_size];
        self.index = self.index + 1;
        Some(SymbolEntry { data: symbol_entry_data, strdata: self.strdata })
    }
}

} // verus!
