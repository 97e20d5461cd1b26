use p1c0_kernel::memory::address::Address;
use p1c0_kernel::memory::Permissions as MemoryPermissions;
use p1c0_kernel::process::{load_plan, Error as ProcessError};
use p1c0_kernel::elf::{EClass, EData, EMachine, EType, ElfParser, Error, PtType, ShType, SymbolType};

fn put16(d: &mut [u8], o: usize, v: u16) {
    d[o..o + 2].copy_from_slice(&v.to_le_bytes());
}
fn put32(d: &mut [u8], o: usize, v: u32) {
    d[o..o + 4].copy_from_slice(&v.to_le_bytes());
}
fn put64(d: &mut [u8], o: usize, v: u64) {
    d[o..o + 8].copy_from_slice(&v.to_le_bytes());
}

const TEXT_OFF: usize = 0x100;
const SHSTR_OFF: usize = 0x120;
const STR_OFF: usize = 0x160;
const SYM_OFF: usize = 0x180;
const SH_OFF: usize = 0x200;
const TEXT_VADDR: u64 = 0x40_0000;

/// A small executable: one loadable segment, sections
/// [null, .text, .shstrtab, .symtab, .strtab] and one function symbol.
fn image() -> Vec<u8> {
    let mut d = vec![0u8; SH_OFF + 5 * 64];
    d[0..4].copy_from_slice(&[0x7f, b'E', b'L', b'F']);
    d[4] = 2;
    d[5] = 1;
    d[6] = 1;
    put16(&mut d, 16, 2);
    put16(&mut d, 18, 183);
    put32(&mut d, 20, 1);
    put64(&mut d, 0x18, TEXT_VADDR + 4);
    put64(&mut d, 0x20, 0x40);
    put64(&mut d, 0x28, SH_OFF as u64);
    put16(&mut d, 0x34, 64);
    put16(&mut d, 0x36, 56);
    put16(&mut d, 0x38, 1);
    put16(&mut d, 0x3A, 64);
    put16(&mut d, 0x3C, 5);
    put16(&mut d, 0x3E, 2);

    // program header
    let ph = 0x40;
    put32(&mut d, ph, 1);
    put32(&mut d, ph + 4, 5);
    put64(&mut d, ph + 0x08, TEXT_OFF as u64);
    put64(&mut d, ph + 0x10, TEXT_VADDR);
    put64(&mut d, ph + 0x18, TEXT_VADDR);
    put64(&mut d, ph + 0x20, 8);
    put64(&mut d, ph + 0x28, 8);

    d[TEXT_OFF..TEXT_OFF + 8].copy_from_slice(&[1, 2, 3, 4, 5, 6, 7, 8]);

    let shstr = b"\0.text\0.shstrtab\0.symtab\0.strtab\0";
    d[SHSTR_OFF..SHSTR_OFF + shstr.len()].copy_from_slice(shstr);
    let strs = b"\0main\0";
    d[STR_OFF..STR_OFF + strs.len()].copy_from_slice(strs);

    // symbol 1: main, function, value, size
    let sym = SYM_OFF + 24;
    put32(&mut d, sym, 1);
    d[sym + 4] = 0x12;
    put64(&mut d, sym + 8, TEXT_VADDR + 4);
    put64(&mut d, sym + 16, 4);

    let mut sh = |i: usize, name: u32, ty: u32, addr: u64, off: usize, size: usize, link: u32, es: u64| {
        let b = SH_OFF + i * 64;
        put32(&mut d, b, name);
        put32(&mut d, b + 4, ty);
        put64(&mut d, b + 0x10, addr);
        put64(&mut d, b + 0x18, off as u64);
        put64(&mut d, b + 0x20, size as u64);
        put32(&mut d, b + 0x28, link);
        put64(&mut d, b + 0x38, es);
    };
    sh(1, 1, 1, TEXT_VADDR, TEXT_OFF, 8, 0, 0);
    sh(2, 7, 3, 0, SHSTR_OFF, shstr.len(), 0, 0);
    sh(3, 17, 2, 0, SYM_OFF, 48, 4, 24);
    sh(4, 25, 3, 0, STR_OFF, strs.len(), 0, 0);
    d
}

#[test]
fn parses_the_file_header() {
    let d = image();
    let elf = ElfParser::from_slice(&d).unwrap();
    assert!(matches!(elf.elf_type(), EType::Executable));
    assert!(matches!(elf.machine(), EMachine::AARCH64));
    assert_eq!(elf.entry_point(), TEXT_VADDR + 4);
}

#[test]
fn rejects_what_is_not_an_elf64_le_image() {
    let mut d = image();
    d[0] = 0;
    assert!(matches!(ElfParser::from_slice(&d), Err(Error::NotAnElfFile)));
    assert!(matches!(ElfParser::from_slice(&d[0..8]), Err(Error::NotAnElfFile)));

    let mut d = image();
    d[4] = 1;
    assert!(matches!(
        ElfParser::from_slice(&d),
        Err(Error::UnsupportedElfClass(EClass::Elf32))
    ));
    d[4] = 9;
    assert!(matches!(ElfParser::from_slice(&d), Err(Error::InvalidElfClass(9))));

    let mut d = image();
    d[5] = 2;
    assert!(matches!(
        ElfParser::from_slice(&d),
        Err(Error::UnsupportedElfEndianness(EData::BigEndian))
    ));
    d[5] = 7;
    assert!(matches!(ElfParser::from_slice(&d), Err(Error::InvalidElfEndianness(7))));

    let mut d = image();
    put16(&mut d, 16, 9);
    assert!(matches!(ElfParser::from_slice(&d), Err(Error::InvalidElfType(9))));

    let mut d = image();
    put16(&mut d, 18, 62);
    assert!(matches!(ElfParser::from_slice(&d), Err(Error::InvalidElfMachine(62))));
}

#[test]
fn reads_program_headers_and_segment_data() {
    let d = image();
    let elf = ElfParser::from_slice(&d).unwrap();
    let mut iter = elf.program_header_iter();
    let ph = iter.next().unwrap();
    assert!(iter.next().is_none());
    assert!(matches!(ph.ty(), Ok(PtType::Load)));
    assert_eq!(ph.vaddr(), TEXT_VADDR);
    assert_eq!(ph.paddr(), TEXT_VADDR);
    assert_eq!(ph.file_offset(), TEXT_OFF as u64);
    assert_eq!(ph.filesize(), 8);
    assert_eq!(ph.memsize(), 8);
    let perms = ph.permissions();
    assert!(perms.read && !perms.write && perms.execute);
    assert_eq!(elf.get_segment_data(&ph), &[1, 2, 3, 4, 5, 6, 7, 8]);
    assert_eq!(elf.matching_section_name(&ph).unwrap(), Some(".text"));
}

#[test]
fn walks_section_headers() {
    let d = image();
    let elf = ElfParser::from_slice(&d).unwrap();
    let mut iter = elf.section_header_iter();
    let null = iter.next().unwrap();
    assert!(matches!(null.ty(), Ok(ShType::Null)));
    let text = iter.next().unwrap();
    assert!(matches!(text.ty(), Ok(ShType::Progbits)));
    assert_eq!(text.vaddr(), TEXT_VADDR);
    assert_eq!(text.offset(), TEXT_OFF as u64);
    assert_eq!(text.size(), 8);
    assert_eq!(text.name_idx(), 1);
    let symtab = iter.nth(1).unwrap();
    assert!(matches!(symtab.ty(), Ok(ShType::SymTab)));
    assert_eq!(symtab.link(), 4);
    assert_eq!(symtab.entry_size(), 24);
    assert!(iter.next().is_some());
    assert!(iter.next().is_none());
}

#[test]
fn lists_symbols() {
    let d = image();
    let elf = ElfParser::from_slice(&d).unwrap();
    let mut symbols = elf.symbol_table_iter().unwrap();
    let first = symbols.next().unwrap();
    assert!(matches!(first.ty(), Ok(SymbolType::NoType)));
    assert_eq!(first.name(), Some(""));
    let main = symbols.next().unwrap();
    assert!(matches!(main.ty(), Ok(SymbolType::Function)));
    assert_eq!(main.name(), Some("main"));
    assert_eq!(main.value(), TEXT_VADDR + 4);
    assert_eq!(main.size(), 4);
    assert!(symbols.next().is_none());
}

#[test]
fn segment_without_section_is_reported() {
    let mut d = image();
    put64(&mut d, 0x40 + 0x10, 0x1234_0000);
    let elf = ElfParser::from_slice(&d).unwrap();
    let ph = elf.program_header_iter().next().unwrap();
    assert!(matches!(elf.matching_section_name(&ph), Err(Error::NoMatchingSection)));
}

#[test]
fn type_codes_decode() {
    assert!(matches!(PtType::try_from(7), Ok(PtType::Tls)));
    assert!(matches!(PtType::try_from(0x99), Err(Error::InvalidPType(0x99))));
    assert!(matches!(ShType::try_from(8), Ok(ShType::NoBits)));
    assert!(matches!(ShType::try_from(77), Err(Error::InvalidShType(77))));
    assert!(matches!(SymbolType::try_from(0x21), Ok(SymbolType::Object)));
    assert!(matches!(SymbolType::try_from(0x07), Err(Error::InvalidSymbolType(7))));
}

#[test]
fn load_plan_lists_each_loadable_segment() {
    let d = image();
    let elf = ElfParser::from_slice(&d).unwrap();
    let plan = load_plan(&elf, 0x10000).unwrap();
    assert_eq!(plan.len(), 1);
    assert_eq!(plan[0].address.as_u64(), TEXT_VADDR + 0x10000);
    assert_eq!(plan[0].data, &[1, 2, 3, 4, 5, 6, 7, 8]);
    assert_eq!(plan[0].memory_size, 8);
    assert_eq!(plan[0].permissions, MemoryPermissions::RX);
    assert_eq!(plan[0].name, Some(".text"));
}

#[test]
fn load_plan_needs_a_section_for_each_segment() {
    let mut d = image();
    put64(&mut d, SH_OFF + 64 + 0x10, TEXT_VADDR + 0x4000);
    let elf = ElfParser::from_slice(&d).unwrap();
    assert!(matches!(
        load_plan(&elf, 0),
        Err(ProcessError::ElfError(Error::NoMatchingSection))
    ));
}

#[test]
fn load_plan_refuses_what_cannot_be_loaded() {
    let d = image();
    let elf = ElfParser::from_slice(&d).unwrap();
    assert!(matches!(load_plan(&elf, 0x100), Err(ProcessError::UnalignedLoadableSegment)));

    let mut d = image();
    put16(&mut d, 16, 1);
    let elf = ElfParser::from_slice(&d).unwrap();
    assert!(matches!(load_plan(&elf, 0), Err(ProcessError::UnsupportedExecutable)));

    let mut d = image();
    put32(&mut d, 0x40, 99);
    let elf = ElfParser::from_slice(&d).unwrap();
    assert!(matches!(
        load_plan(&elf, 0),
        Err(ProcessError::ElfError(Error::InvalidPType(99)))
    ));
}
