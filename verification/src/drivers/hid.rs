//! HID devices behind the SPI transport: packet checking and decoding, and
//! what a keyboard packet does to the keyboard state.
use vstd::prelude::*;

pub mod keyboard;

use crate::crc::crc16;
use crate::crc::crc16::crc16_spec;
use crate::drivers::hid::keyboard::{
    press_keys, release_keys, Keyboard, KeyboardReport,
};
use crate::drivers::spi;

verus! {

#[derive(Debug)]
pub enum IoError {
    CannotRequestGpio,
    SpiError(spi::Error),
    InvalidCRC,
}

pub const KBD_DEVICE_ID: u8 = 1;

pub const TRACKPAD_DEVICE_ID: u8 = 2;

/// Size of a transfer packet on the wire.
pub const PACKET_SIZE: usize = 256;

/// Size of the payload of a transfer packet.
pub const PACKET_DATA_SIZE: usize = 246;

/// Size of the message header at the start of a payload.
pub const MSG_HEADER_SIZE: usize = 8;

/// A 16-bit little-endian value at `o`.
pub open spec fn le16_at(d: Seq<u8>, o: int) -> u16 {
    (d[o] + d[o + 1] * 256) as u16
}

fn read_le16(d: &[u8], o: usize) -> (v: u16)
    requires
        o + 2 <= d@.len(),
    ensures
        v == le16_at(d@, o as int),
{
    d[o] as u16 + (d[o + 1] as u16) * 256
}

/// A transfer packet: flags, device, offset, remaining, length (each 16-bit
/// field little endian), 246 bytes of payload and a CRC-16.
#[derive(Debug)]
pub struct HidTransferPacket {
    pub flags: u8,
    pub device: u8,
    pub offset: u16,
    pub remaining: u16,
    pub length: u16,
    pub data: Vec<u8>,
    pub crc16: u16,
}

/// Whether `packet` is the packet that the bytes `b` hold.
pub open spec fn decodes_to(b: Seq<u8>, packet: HidTransferPacket) -> bool {
    &&& packet.flags == b[0]
    &&& packet.device == b[1]
    &&& packet.offset == le16_at(b, 2)
    &&& packet.remaining == le16_at(b, 4)
    &&& packet.length == le16_at(b, 6)
    &&& packet.data@ == b.subrange(8, 254)
    &&& packet.crc16 == le16_at(b, 254)
}

/// Checks the CRC of a received packet and decodes it. The CRC-16 of a
/// whole packet, its own checksum included, is 0.
pub fn decode_packet(bytes: &[u8]) -> (result: Result<HidTransferPacket, IoError>)
    requires
        bytes@.len() == PACKET_SIZE,
    ensures
        crc16_spec(0, bytes@) != 0 ==> result matches Err(IoError::InvalidCRC),
        crc16_spec(0, bytes@) == 0 ==> (result matches Ok(p) && decodes_to(bytes@, p)),
{
    let crc = crc16(0, bytes);
    if crc != 0 {
        return Err(IoError::InvalidCRC);
    }
    let mut data: Vec<u8> = Vec::new();
    let mut i: usize = 8;
    while i < 254
        invariant
            8 <= i <= 254,
            bytes@.len() == PACKET_SIZE,
            data@ == bytes@.subrange(8, i as int),
        decreases 254 - i,
    {
        data.push(bytes[i]);
        assert(data@ =~= bytes@.subrange(8, i as int + 1));
        i = i + 1;
    }
    Ok(
        HidTransferPacket {
            flags: bytes[0],
            device: bytes[1],
            offset: read_le16(bytes, 2),
            remaining: read_le16(bytes, 4),
            length: read_le16(bytes, 6),
            data,
            crc16: read_le16(bytes, 254),
        },
    )
}

/// Which device sent a packet.
#[derive(Debug, PartialEq, Eq, Structural)]
pub enum PacketSource {
    Keyboard,
    Trackpad,
    Unknown,
}

pub fn packet_source(packet: &HidTransferPacket) -> (source: PacketSource)
    ensures
        source == (if packet.device == KBD_DEVICE_ID {
            PacketSource::Keyboard
        } else if packet.device == TRACKPAD_DEVICE_ID {
            PacketSource::Trackpad
        } else {
            PacketSource::Unknown
        }),
{
    if packet.device == KBD_DEVICE_ID {
        PacketSource::Keyboard
    } else if packet.device == TRACKPAD_DEVICE_ID {
        PacketSource::Trackpad
    } else {
        PacketSource::Unknown
    }
}

/// What a keyboard packet amounts to.
#[derive(Debug)]
pub enum KeyboardPacket {
    /// Shorter than a message header.
    Short,
    /// Not a keyboard report.
    Ignored,
    /// A report: the characters it typed, or `None` when it said that too
    /// many keys are pressed.
    Report(Option<Vec<char>>),
}

/// The payload holds a keyboard report message of `len` bytes.
pub open spec fn is_report_message(data: Seq<u8>) -> bool {
    &&& le16_at(data, 6) >= 9
    &&& data[0] == 0x10 && data[1] == 0x01 && data[2] == 0x00
}

/// What a keyboard packet whose length field is `length` and whose payload
/// is `data` answers, and what it does to the held keys `old` (giving
/// `new`).
pub open spec fn keyboard_packet_result(
    old: Seq<u8>,
    new: Seq<u8>,
    length: u16,
    data: Seq<u8>,
    outcome: KeyboardPacket,
) -> bool {
    if length < MSG_HEADER_SIZE {
        outcome is Short && new == old
    } else if !is_report_message(data) {
        outcome is Ignored && new == old
    } else {
        let codes = data.subrange(11, 17);
        if codes.contains(1u8) {
            (outcome matches KeyboardPacket::Report(r) && r is None) && new == old
        } else {
            let (h, out) = press_keys(release_keys(old, codes), codes);
            &&& (outcome matches KeyboardPacket::Report(r) && r matches Some(t) && t@ == out)
            &&& new == h
        }
    }
}

/// Hands the keyboard report that `packet` carries to `keyboard`.
pub fn parse_keyboard_packet(keyboard: &mut Keyboard, packet: &HidTransferPacket) -> (outcome: KeyboardPacket)
    requires
        packet.data@.len() == PACKET_DATA_SIZE,
        packet.length >= MSG_HEADER_SIZE && is_report_message(packet.data@) ==> MSG_HEADER_SIZE
            + le16_at(packet.data@, 6) <= PACKET_DATA_SIZE,
    ensures
        keyboard_packet_result(old(keyboard).held(), final(keyboard).held(), packet.length, packet.data@, outcome),
{
    if (packet.length as usize) < MSG_HEADER_SIZE {
        return KeyboardPacket::Short;
    }
    let d = &packet.data;
    let len = read_le16(d.as_slice(), 6);
    if len >= 9 && d[0] == 0x10 && d[1] == 0x01 && d[2] == 0x00 {
        let data = &d.as_slice()[MSG_HEADER_SIZE..MSG_HEADER_SIZE + len as usize];
        let report = KeyboardReport::new(data);
        assert(data@.subrange(3, 9) =~= packet.data@.subrange(11, 17));
        KeyboardPacket::Report(keyboard.handle_report(report))
    } else {
        KeyboardPacket::Ignored
    }
}


/// What the device loop does with a received packet.
#[derive(Debug)]
pub enum HidEvent {
    /// A keyboard packet and what it did to the keyboard.
    Keyboard(KeyboardPacket),
    /// A trackpad packet; these are ignored.
    Trackpad,
    /// A packet from another device.
    Unknown(HidTransferPacket),
}

/// One turn of the device loop after a packet has been received: checks
/// the packet and hands keyboard packets to `keyboard`.
pub fn handle_packet(keyboard: &mut Keyboard, bytes: &[u8]) -> (result: Result<HidEvent, IoError>)
    requires
        bytes@.len() == PACKET_SIZE,
        crc16_spec(0, bytes@) == 0 && bytes@[1] == KBD_DEVICE_ID && le16_at(bytes@, 6) >= MSG_HEADER_SIZE
            && is_report_message(bytes@.subrange(8, 254)) ==> MSG_HEADER_SIZE + le16_at(
            bytes@.subrange(8, 254),
            6,
        ) <= PACKET_DATA_SIZE,
    ensures
        crc16_spec(0, bytes@) != 0 ==> (result matches Err(IoError::InvalidCRC)) && final(keyboard).held()
            == old(keyboard).held(),
        crc16_spec(0, bytes@) == 0 && bytes@[1] == TRACKPAD_DEVICE_ID ==> (result matches Ok(HidEvent::Trackpad))
            && final(keyboard).held() == old(keyboard).held(),
        crc16_spec(0, bytes@) == 0 && bytes@[1] != KBD_DEVICE_ID && bytes@[1] != TRACKPAD_DEVICE_ID ==> (
        result matches Ok(HidEvent::Unknown(p)) && decodes_to(bytes@, p)) && final(keyboard).held()
            == old(keyboard).held(),
        crc16_spec(0, bytes@) == 0 && bytes@[1] == KBD_DEVICE_ID ==> (result matches Ok(HidEvent::Keyboard(k))
            && keyboard_packet_result(
            old(keyboard).held(),
            final(keyboard).held(),
            le16_at(bytes@, 6),
            bytes@.subrange(8, 254),
            k,
        )),
{
    let packet = match decode_packet(bytes) {
        Ok(p) => p,
        Err(e) => {
            return Err(e);
        },
    };
    match packet_source(&packet) {
        PacketSource::Keyboard => Ok(HidEvent::Keyboard(parse_keyboard_packet(keyboard, &packet))),
        PacketSource::Trackpad => Ok(HidEvent::Trackpad),
        PacketSource::Unknown => Ok(HidEvent::Unknown(packet)),
    }
}

} // verus!
