use p1c0_kernel::backtrace::ksyms::{parse, parse_payload, KSyms};
use p1c0_kernel::memory::address::VirtualAddress;
use p1c0_kernel::stripper::{
    file_fits, symbol_file, symbol_file_for_image, symbols_from_elf_file, ElfSymbolKind,
    ElfSymbolRecord, ImageError, NamedSymbol,
};

fn named(name: &str, address: u64, size: u64) -> NamedSymbol {
    NamedSymbol { name: name.to_string(), address, size }
}

fn record(kind: ElfSymbolKind, name: &str, address: u64, size: u64) -> ElfSymbolRecord {
    ElfSymbolRecord { kind, name: Some(name.to_string()), address, size }
}

const BASE: u64 = 0xFFFF_0000_1000_0000;

fn load(file: &[u8]) -> KSyms<'_> {
    let (ksyms, size) = parse(file, VirtualAddress::new_unchecked(BASE)).unwrap();
    assert_eq!(size, file.len());
    ksyms
}

fn lookup(ksyms: &KSyms, offset: u64) -> Option<(String, usize)> {
    ksyms.symbolicate(VirtualAddress::new_unchecked(BASE + offset))
}

#[test]
fn file_layout_is_header_entries_names() {
    let file = symbol_file(&vec![named("b", 0x200, 0x10), named("a", 0x100, 0x20)]);
    let mut expected = Vec::new();
    expected.extend_from_slice(b"Smbl");
    expected.extend_from_slice(&(0x14u32 + 2 * 0x18 + 2).to_le_bytes());
    expected.extend_from_slice(&2u32.to_le_bytes());
    expected.extend_from_slice(&0x14u32.to_le_bytes());
    expected.extend_from_slice(&(0x14u32 + 2 * 0x18).to_le_bytes());
    // sorted by address: "a" (name at offset 1) first
    expected.extend_from_slice(&1u32.to_le_bytes());
    expected.extend_from_slice(&1u32.to_le_bytes());
    expected.extend_from_slice(&0x100u64.to_le_bytes());
    expected.extend_from_slice(&0x20u64.to_le_bytes());
    expected.extend_from_slice(&0u32.to_le_bytes());
    expected.extend_from_slice(&1u32.to_le_bytes());
    expected.extend_from_slice(&0x200u64.to_le_bytes());
    expected.extend_from_slice(&0x10u64.to_le_bytes());
    expected.extend_from_slice(b"ba");
    assert_eq!(file, expected);
}

#[test]
fn written_symbols_are_found_again() {
    let mut symbols = Vec::new();
    for i in 0..40u64 {
        symbols.push(named(&format!("function_{}", 39 - i), 0x1000 + (39 - i) * 0x100, 0x80));
    }
    let file = symbol_file(&symbols);
    let ksyms = load(&file);
    for i in 0..40u64 {
        let start = 0x1000 + i * 0x100;
        assert_eq!(lookup(&ksyms, start), Some((format!("function_{}", i), 0)));
        assert_eq!(lookup(&ksyms, start + 0x7f), Some((format!("function_{}", i), 0x7f)));
        assert_eq!(lookup(&ksyms, start + 0x80), None);
    }
    assert_eq!(lookup(&ksyms, 0x10), None);
    assert_eq!(lookup(&ksyms, 0x100_0000), None);
}

#[test]
fn small_tables_are_searched_linearly() {
    let file = symbol_file(&vec![named("one", 0x10, 4), named("two", 0x20, 4)]);
    let ksyms = load(&file);
    assert_eq!(lookup(&ksyms, 0x12), Some(("one".to_string(), 2)));
    assert_eq!(lookup(&ksyms, 0x23), Some(("two".to_string(), 3)));
    assert_eq!(lookup(&ksyms, 0x18), None);
}

#[test]
fn data_without_magic_is_no_symbol_file() {
    let data = [0u8; 32];
    assert!(parse(&data, VirtualAddress::new_unchecked(BASE)).is_err());
}

#[test]
fn only_text_symbols_are_kept_and_names_are_demangled() {
    let records = vec![
        record(ElfSymbolKind::Null, "", 0, 0),
        record(ElfSymbolKind::Data, "DATA", 0x500, 8),
        record(ElfSymbolKind::Text, "_ZN4core3fmt5write17h0123456789abcdefE", 0x300, 0x40),
        record(ElfSymbolKind::Text, "plain_c_function", 0x100, 0x10),
    ];
    let file = symbols_from_elf_file(&records).unwrap();
    let expected = symbol_file(&vec![
        named("core::fmt::write::h0123456789abcdef", 0x300, 0x40),
        named("plain_c_function", 0x100, 0x10),
    ]);
    assert_eq!(file, expected);
    let ksyms = load(&file);
    assert_eq!(lookup(&ksyms, 0x501), None);
    assert_eq!(
        lookup(&ksyms, 0x304),
        Some(("core::fmt::write::h0123456789abcdef".to_string(), 4))
    );
}

#[test]
fn empty_symbol_file() {
    let file = symbol_file(&Vec::new());
    assert_eq!(file.len(), 0x14);
    let ksyms = load(&file);
    assert_eq!(lookup(&ksyms, 0x10), None);
    assert!(file_fits(&Vec::new()));
}

#[test]
fn symbol_file_followed_by_other_payload_reports_its_size() {
    let mut data = symbol_file(&vec![named("x", 0x40, 4)]);
    let len = data.len();
    data.extend_from_slice(&[0xAA; 16]);
    let (_, size) = parse(&data, VirtualAddress::new_unchecked(BASE)).unwrap();
    assert_eq!(size, len);
}

#[test]
fn payload_with_a_symbol_file_is_read() {
    let mut payload = symbol_file(&vec![named("start", 0x100, 0x40)]);
    payload.extend_from_slice(&[0u8; 16]);
    let ksyms = parse_payload(&payload, VirtualAddress::new_unchecked(BASE)).unwrap();
    assert_eq!(lookup(&ksyms, 0x110), Some(("start".to_string(), 0x10)));
}

#[test]
fn payload_without_a_symbol_file_gives_nothing() {
    let payload = [0u8; 32];
    assert!(parse_payload(&payload, VirtualAddress::new_unchecked(BASE)).is_none());
}

fn push16(v: &mut Vec<u8>, x: u16) {
    v.extend_from_slice(&x.to_le_bytes());
}
fn push32(v: &mut Vec<u8>, x: u32) {
    v.extend_from_slice(&x.to_le_bytes());
}
fn push64(v: &mut Vec<u8>, x: u64) {
    v.extend_from_slice(&x.to_le_bytes());
}

/// A relocatable 64-bit little-endian ELF file whose symbol table holds
/// the given (name, type, value, size) symbols after the null symbol.
fn elf_image(symbols: &[(&str, u8, u64, u64)]) -> Vec<u8> {
    let mut strtab = vec![0u8];
    let mut symtab = vec![0u8; 24];
    for (name, ty, value, size) in symbols {
        let off = strtab.len() as u32;
        strtab.extend_from_slice(name.as_bytes());
        strtab.push(0);
        push32(&mut symtab, off);
        symtab.push(0x10 | ty);
        symtab.push(0);
        push16(&mut symtab, 1);
        push64(&mut symtab, *value);
        push64(&mut symtab, *size);
    }
    let shstrtab = b"\0.symtab\0.strtab\0.shstrtab\0".to_vec();
    let symtab_off = 64u64;
    let strtab_off = symtab_off + symtab.len() as u64;
    let shstrtab_off = strtab_off + strtab.len() as u64;
    let mut shoff = shstrtab_off + shstrtab.len() as u64;
    shoff = (shoff + 7) / 8 * 8;

    let mut image = vec![0x7f, b'E', b'L', b'F', 2, 1, 1, 0];
    image.extend_from_slice(&[0u8; 8]);
    push16(&mut image, 1);
    push16(&mut image, 183);
    push32(&mut image, 1);
    push64(&mut image, 0);
    push64(&mut image, 0);
    push64(&mut image, shoff);
    push32(&mut image, 0);
    push16(&mut image, 64);
    push16(&mut image, 56);
    push16(&mut image, 0);
    push16(&mut image, 64);
    push16(&mut image, 4);
    push16(&mut image, 3);
    image.extend_from_slice(&symtab);
    image.extend_from_slice(&strtab);
    image.extend_from_slice(&shstrtab);
    while (image.len() as u64) < shoff {
        image.push(0);
    }
    let mut section = |name: u32, ty: u32, off: u64, size: u64, link: u32, info: u32, entsize: u64| {
        push32(&mut image, name);
        push32(&mut image, ty);
        push64(&mut image, 0);
        push64(&mut image, 0);
        push64(&mut image, off);
        push64(&mut image, size);
        push32(&mut image, link);
        push32(&mut image, info);
        push64(&mut image, if entsize == 24 { 8 } else { 1 });
        push64(&mut image, entsize);
    };
    section(0, 0, 0, 0, 0, 0, 0);
    section(1, 2, symtab_off, symtab.len() as u64, 2, 1, 24);
    section(9, 3, strtab_off, strtab.len() as u64, 0, 0, 0);
    section(17, 3, shstrtab_off, shstrtab.len() as u64, 0, 0, 0);
    image
}

#[test]
fn symbol_file_is_made_from_an_elf_image() {
    let image = elf_image(&[
        ("data_symbol", 1, 0x900, 8),
        ("second_function", 2, 0x200, 0x20),
        ("first_function", 2, 0x100, 0x10),
    ]);
    let file = symbol_file_for_image(&image).unwrap();
    let expected = symbol_file(&vec![
        named("second_function", 0x200, 0x20),
        named("first_function", 0x100, 0x10),
    ]);
    assert_eq!(file, expected);
    let ksyms = load(&file);
    assert_eq!(lookup(&ksyms, 0x108), Some(("first_function".to_string(), 8)));
    assert_eq!(lookup(&ksyms, 0x900), None);
}

#[test]
fn bytes_that_are_no_elf_image_are_refused() {
    assert_eq!(symbol_file_for_image(&[0u8; 64]), Err(ImageError::NotElf));
    assert_eq!(symbol_file_for_image(b"Smbl"), Err(ImageError::NotElf));
}
