use p1c0_kernel::drivers::gpio::{pin_state_value, Error as GpioError, PinState, PinTable};
use p1c0_kernel::elf::{ElfParser, Permissions as SegmentFlags};
use p1c0_kernel::log::{is_enabled, should_print, Level};
use p1c0_kernel::memory::address::{Validator, VirtualAddress};
use p1c0_kernel::memory::Permissions;
use p1c0_kernel::process::{
    argument_page, exit_code, segment_address, segment_permissions, Error as ProcessError, ProcessHandle,
    ProcessSymbolicator, State,
};
use p1c0_kernel::thread::StackValidator;

#[test]
fn pins_are_handed_out_once() {
    let mut pins = PinTable::new(8);
    assert!(pins.try_take_pin(3).is_ok());
    assert!(matches!(pins.try_take_pin(3), Err(GpioError::PinNotAvailable)));
    assert!(matches!(pins.try_take_pin(8), Err(GpioError::InvalidPin)));
    pins.release_pin(3);
    assert!(pins.try_take_pin(3).is_ok());
    assert_eq!(pin_state_value(PinState::High), 1);
    assert_eq!(pin_state_value(PinState::Low), 0);
}

#[test]
fn log_levels_filter_messages() {
    assert_eq!(Level::from(3), Level::Info);
    assert_eq!(Level::Verbose.number(), 5);
    assert!(is_enabled(Level::Error, Level::Warning));
    assert!(!is_enabled(Level::Debug, Level::Info));
    assert!(should_print(Level::Debug));
    assert!(!should_print(Level::Verbose));
}

#[test]
fn process_state_and_handles() {
    assert_eq!(exit_code(State::Running), None);
    assert_eq!(exit_code(State::Killed(3)), Some(3));
    assert_eq!(ProcessHandle(7).get_raw(), 7);
}

#[test]
fn segment_flags_map_to_permissions() {
    let f = |read, write, execute| SegmentFlags { read, write, execute };
    assert_eq!(segment_permissions(f(true, true, false)), Some(Permissions::RW));
    assert_eq!(segment_permissions(f(true, false, false)), Some(Permissions::RO));
    assert_eq!(segment_permissions(f(true, false, true)), Some(Permissions::RX));
    assert_eq!(segment_permissions(f(false, false, true)), Some(Permissions::RX));
    assert_eq!(segment_permissions(f(true, true, true)), Some(Permissions::RWX));
    assert_eq!(segment_permissions(f(false, true, false)), None);
    assert_eq!(segment_permissions(f(false, false, false)), None);
    assert_eq!(segment_address(0x40_0000, 0x1000_0000).unwrap(), VirtualAddress::new_unchecked(0x1040_0000));
    assert!(matches!(segment_address(0x40_0010, 0), Err(ProcessError::UnalignedLoadableSegment)));
}

#[test]
fn stack_check_accepts_addresses() {
    let v = StackValidator::new(VirtualAddress::new_unchecked(0x1000), 0x100);
    assert!(v.is_valid(VirtualAddress::new_unchecked(0x1010)));
    assert!(v.is_valid(VirtualAddress::new_unchecked(0x800)));
    assert_eq!(v.top(), 0x1100);
}

fn put16(d: &mut [u8], o: usize, v: u16) {
    d[o..o + 2].copy_from_slice(&v.to_le_bytes());
}
fn put32(d: &mut [u8], o: usize, v: u32) {
    d[o..o + 4].copy_from_slice(&v.to_le_bytes());
}
fn put64(d: &mut [u8], o: usize, v: u64) {
    d[o..o + 8].copy_from_slice(&v.to_le_bytes());
}

/// An image with sections [null, .symtab, .strtab] and symbols
/// [null, data object, function `start`, function `helper`].
fn image() -> Vec<u8> {
    let sh_off = 0x200;
    let mut d = vec![0u8; sh_off + 3 * 64];
    d[0..4].copy_from_slice(&[0x7f, b'E', b'L', b'F']);
    d[4] = 2;
    d[5] = 1;
    put16(&mut d, 16, 3);
    put16(&mut d, 18, 183);
    put64(&mut d, 0x28, sh_off as u64);
    put16(&mut d, 0x3A, 64);
    put16(&mut d, 0x3C, 3);
    let strs = b"\0obj\0start\0helper\0";
    d[0x180..0x180 + strs.len()].copy_from_slice(strs);
    let sym = |d: &mut Vec<u8>, i: usize, name: u32, info: u8, value: u64, size: u64| {
        let o = 0x100 + i * 24;
        put32(d, o, name);
        d[o + 4] = info;
        put64(d, o + 8, value);
        put64(d, o + 16, size);
    };
    sym(&mut d, 1, 1, 0x11, 0x1000, 0x100);
    sym(&mut d, 2, 5, 0x12, 0x1000, 0x40);
    sym(&mut d, 3, 11, 0x12, 0x1040, 0x20);
    let b = sh_off + 64;
    put32(&mut d, b + 4, 2);
    put64(&mut d, b + 0x18, 0x100);
    put64(&mut d, b + 0x20, 4 * 24);
    put32(&mut d, b + 0x28, 2);
    put64(&mut d, b + 0x38, 24);
    let b = sh_off + 128;
    put32(&mut d, b + 4, 3);
    put64(&mut d, b + 0x18, 0x180);
    put64(&mut d, b + 0x20, strs.len() as u64);
    d
}

#[test]
fn process_addresses_are_named_by_function_symbols() {
    let d = image();
    let elf = ElfParser::from_slice(&d).unwrap();
    let base = VirtualAddress::new_unchecked(0x4000_0000);
    let s = ProcessSymbolicator::new(elf, base);
    let at = |off: u64| s.symbolicate(VirtualAddress::new_unchecked(0x4000_0000 + off));
    assert_eq!(at(0x1010), Some(("start".to_string(), 0x10)));
    assert_eq!(at(0x1044), Some(("helper".to_string(), 4)));
    assert_eq!(at(0x1080), None);
}

use p1c0_kernel::sync::spinlock::{
    enter_critical_step, exit_critical_step, read_lock_step, read_unlock_step, write_lock_step,
    write_unlock_step, Error as LockError,
};

#[test]
fn reader_writer_lock_word() {
    // two readers come in; the first enters the critical section
    assert_eq!(read_lock_step(0), Ok((2, true)));
    assert_eq!(read_lock_step(2), Ok((4, false)));
    // no writer while readers hold it
    assert_eq!(write_lock_step(4), Err(LockError::WouldBlock));
    assert_eq!(read_unlock_step(4), (2, false));
    assert_eq!(read_unlock_step(2), (0, true));
    // a writer excludes everyone
    assert_eq!(write_lock_step(0), Ok(1));
    assert_eq!(read_lock_step(1), Err(LockError::WouldBlock));
    assert_eq!(write_lock_step(1), Err(LockError::WouldBlock));
    assert_eq!(write_unlock_step(1), 0);
}

#[test]
fn critical_section_nesting() {
    assert_eq!(enter_critical_step(0), (1, true));
    assert_eq!(enter_critical_step(1), (2, false));
    assert_eq!(exit_critical_step(2), (1, false));
    assert_eq!(exit_critical_step(1), (0, true));
}

use p1c0_kernel::thread::{thread_name, Builder, DEFAULT_STACK_SIZE};

#[test]
fn thread_builder_defaults() {
    let (name, stack) = Builder::new().settings();
    assert_eq!(thread_name(&name), None);
    assert_eq!(stack, DEFAULT_STACK_SIZE);
    let (name, stack) = Builder::new().name("Idle").stack_size(128).settings();
    assert_eq!(thread_name(&name), Some("Idle"));
    assert_eq!(stack, 128);
}

#[test]
fn argument_page_lays_out_strings_and_pointer_arrays() {
    let args = vec!["init".to_string()];
    let env = vec![("A".to_string(), "b".to_string())];
    let (bytes, argc, argv, envp) = argument_page(&args, &env, 0x1000).unwrap();
    assert_eq!(bytes.len(), 16384);
    assert_eq!(&bytes[0..9], b"init\0A=b\0");
    assert!(bytes[9..16].iter().all(|b| *b == 0));
    assert_eq!(&bytes[16..24], &0x1000u64.to_le_bytes());
    assert_eq!(&bytes[24..32], &0u64.to_le_bytes());
    assert!(bytes[32..40].iter().all(|b| *b == 0));
    assert_eq!(&bytes[40..48], &0x1005u64.to_le_bytes());
    assert!(bytes[48..].iter().all(|b| *b == 0));
    assert_eq!(argc, 1);
    assert_eq!(argv, 0x1010);
    assert_eq!(envp, 0x1028);
}

#[test]
fn argument_page_refuses_contents_larger_than_a_page() {
    let args = vec!["x".repeat(20000)];
    assert!(argument_page(&args, &vec![], 0x1000).is_none());
    let env = vec![("K".to_string(), "v".repeat(16380))];
    assert!(argument_page(&vec![], &env, 0x1000).is_none());
}

#[test]
fn argument_page_may_end_with_the_environment_array() {
    let env = vec![("K".to_string(), "v".repeat(16349))];
    let (bytes, argc, argv, envp) = argument_page(&vec![], &env, 0x1000).unwrap();
    assert_eq!(bytes.len(), 16384);
    assert_eq!(argc, 0);
    assert_eq!(argv, 0x1000 + 16352);
    assert_eq!(envp, 0x1000 + 16368);
    assert_eq!(&bytes[16368..16376], &0x1000u64.to_le_bytes());
    assert_eq!(&bytes[16376..16384], &0u64.to_le_bytes());
    let env = vec![("K".to_string(), "v".repeat(16357))];
    assert!(argument_page(&vec![], &env, 0x1000).is_none());
}
