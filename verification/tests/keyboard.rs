use p1c0_kernel::crc::crc16;
use p1c0_kernel::drivers::hid::keyboard::{Keyboard, KeyboardReport, Scancode};
use p1c0_kernel::drivers::hid::{
    decode_packet, packet_source, parse_keyboard_packet, IoError, KeyboardPacket, PacketSource,
};

fn report(codes: [u8; 6]) -> KeyboardReport {
    let mut data = vec![0u8, 0, 0];
    data.extend_from_slice(&codes);
    KeyboardReport::new(&data)
}

#[test]
fn scancodes_type_letters_digits_and_whitespace() {
    assert_eq!(Scancode::new(4).to_char(), Some('A'));
    assert_eq!(Scancode::new(29).to_char(), Some('Z'));
    assert_eq!(Scancode::new(30).to_char(), Some('1'));
    assert_eq!(Scancode::new(38).to_char(), Some('9'));
    assert_eq!(Scancode::new(39).to_char(), Some('0'));
    assert_eq!(Scancode::new(40).to_char(), Some('\n'));
    assert_eq!(Scancode::new(43).to_char(), Some('\t'));
    assert_eq!(Scancode::new(44).to_char(), Some(' '));
    assert_eq!(Scancode::new(41).to_char(), None);
    assert_eq!(Scancode::new(0).to_char(), None);
    assert!(Scancode::new(1).is_error());
    assert!(!Scancode::new(0).is_valid());
}

#[test]
fn report_reads_six_key_codes() {
    let data = [0u8, 0x02, 0, 4, 5, 6, 0, 0, 0];
    let r = KeyboardReport::new(&data);
    let codes: Vec<u8> = r.keycodes().iter().map(|c| c.0).collect();
    assert_eq!(codes, vec![4, 5, 6, 0, 0, 0]);
    assert!(!r.has_error());
    assert!(report([1, 1, 1, 1, 1, 1]).has_error());
}

#[test]
fn new_keys_type_once_while_held() {
    let mut kb = Keyboard::new();
    assert_eq!(kb.handle_report(report([11, 0, 0, 0, 0, 0])), Some(vec!['H']));
    // still held: nothing new
    assert_eq!(kb.handle_report(report([11, 8, 0, 0, 0, 0])), Some(vec!['E']));
    // release both, press again
    assert_eq!(kb.handle_report(report([0, 0, 0, 0, 0, 0])), Some(vec![]));
    assert_eq!(kb.handle_report(report([8, 11, 0, 0, 0, 0])), Some(vec!['E', 'H']));
}

#[test]
fn error_report_changes_nothing() {
    let mut kb = Keyboard::new();
    assert_eq!(kb.handle_report(report([4, 0, 0, 0, 0, 0])), Some(vec!['A']));
    assert_eq!(kb.handle_report(report([1, 1, 1, 1, 1, 1])), None);
    // 'A' is still held, so it does not type again
    assert_eq!(kb.handle_report(report([4, 5, 0, 0, 0, 0])), Some(vec!['B']));
}

#[test]
fn repeated_code_in_one_report_types_once() {
    let mut kb = Keyboard::new();
    assert_eq!(kb.handle_report(report([44, 44, 0, 0, 0, 0])), Some(vec![' ']));
}

fn packet_bytes(device: u8, length: u16, payload: &[u8]) -> Vec<u8> {
    let mut b = vec![0u8; 256];
    b[0] = 0x40;
    b[1] = device;
    b[6..8].copy_from_slice(&length.to_le_bytes());
    b[8..8 + payload.len()].copy_from_slice(payload);
    let crc = crc16(0, &b[..254]);
    b[254..256].copy_from_slice(&crc.to_le_bytes());
    b
}

#[test]
fn packets_with_a_bad_crc_are_refused() {
    let mut b = packet_bytes(1, 20, &[]);
    b[10] ^= 0xff;
    assert!(matches!(decode_packet(&b), Err(IoError::InvalidCRC)));
}

#[test]
fn keyboard_packet_reaches_the_keyboard() {
    let mut message = vec![0x10u8, 0x01, 0x00, 0x00, 0, 0];
    message.extend_from_slice(&9u16.to_le_bytes());
    message.extend_from_slice(&[0, 0, 0, 4, 5, 0, 0, 0, 0]);
    let b = packet_bytes(1, 17, &message);
    let packet = decode_packet(&b).unwrap();
    assert_eq!(packet.device, 1);
    assert_eq!(packet.length, 17);
    assert_eq!(packet_source(&packet), PacketSource::Keyboard);
    let mut kb = Keyboard::new();
    match parse_keyboard_packet(&mut kb, &packet) {
        KeyboardPacket::Report(Some(chars)) => assert_eq!(chars, vec!['A', 'B']),
        other => panic!("unexpected {:?}", other),
    }
}

#[test]
fn short_and_foreign_packets() {
    let packet = decode_packet(&packet_bytes(1, 4, &[])).unwrap();
    let mut kb = Keyboard::new();
    assert!(matches!(parse_keyboard_packet(&mut kb, &packet), KeyboardPacket::Short));
    let packet = decode_packet(&packet_bytes(1, 20, &[0x20, 0, 0, 0, 0, 0, 9, 0])).unwrap();
    assert!(matches!(parse_keyboard_packet(&mut kb, &packet), KeyboardPacket::Ignored));
    let trackpad = decode_packet(&packet_bytes(2, 0, &[])).unwrap();
    assert_eq!(packet_source(&trackpad), PacketSource::Trackpad);
    let other = decode_packet(&packet_bytes(9, 0, &[])).unwrap();
    assert_eq!(packet_source(&other), PacketSource::Unknown);
}

use p1c0_kernel::drivers::hid::{handle_packet, HidEvent};

#[test]
fn device_loop_turn_dispatches_packets() {
    let mut kb = Keyboard::new();
    let mut message = vec![0x10u8, 0x01, 0x00, 0x00, 0, 0];
    message.extend_from_slice(&9u16.to_le_bytes());
    message.extend_from_slice(&[0, 0, 0, 44, 0, 0, 0, 0, 0]);
    match handle_packet(&mut kb, &packet_bytes(1, 17, &message)).unwrap() {
        HidEvent::Keyboard(KeyboardPacket::Report(Some(chars))) => assert_eq!(chars, vec![' ']),
        other => panic!("unexpected {:?}", other),
    }
    assert!(matches!(handle_packet(&mut kb, &packet_bytes(2, 0, &[])), Ok(HidEvent::Trackpad)));
    assert!(matches!(handle_packet(&mut kb, &packet_bytes(7, 0, &[])), Ok(HidEvent::Unknown(_))));
    let mut bad = packet_bytes(1, 17, &message);
    bad[0] ^= 1;
    assert!(matches!(handle_packet(&mut kb, &bad), Err(IoError::InvalidCRC)));
}

#[test]
fn held_keys_are_exactly_the_keys_of_the_last_report() {
    let mut kb = Keyboard::new();
    assert_eq!(
        kb.handle_report(report([4, 5, 6, 7, 8, 9])),
        Some(vec!['A', 'B', 'C', 'D', 'E', 'F'])
    );
    // six new keys: the six old ones were let go, so every key finds a slot
    assert_eq!(
        kb.handle_report(report([10, 11, 12, 13, 14, 15])),
        Some(vec!['G', 'H', 'I', 'J', 'K', 'L'])
    );
    assert_eq!(kb.handle_report(report([15, 14, 13, 12, 11, 10])), Some(vec![]));
    assert_eq!(kb.handle_report(report([4, 15, 0, 0, 0, 0])), Some(vec!['A']));
    assert_eq!(kb.handle_report(report([15, 4, 0, 0, 0, 0])), Some(vec![]));
}

#[test]
fn a_report_types_its_new_keys_once_in_order() {
    let mut kb = Keyboard::new();
    assert_eq!(kb.handle_report(report([4, 0, 0, 0, 0, 0])), Some(vec!['A']));
    assert_eq!(
        kb.handle_report(report([6, 4, 5, 6, 0, 5])),
        Some(vec!['C', 'B'])
    );
}
