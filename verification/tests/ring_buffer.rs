use p1c0_kernel::collections::ring_buffer::{Error, RingBuffer};

#[test]
fn test_can_split_the_buffer() {
    let mut ring_buffer: RingBuffer<16> = RingBuffer::new();
    let (_writer, _reader) = ring_buffer.split().unwrap();
}

#[test]
fn test_more_than_one_split_fails() {
    let mut ring_buffer: RingBuffer<16> = RingBuffer::new();
    let (_writer, _reader) = ring_buffer.split().unwrap();
    ring_buffer.split().unwrap_err();
}

#[test]
fn test_empty_buffer_does_not_pop() {
    let mut ring_buffer: RingBuffer<16> = RingBuffer::new();
    let (_writer, mut reader) = ring_buffer.split().unwrap();

    assert!(matches!(reader.pop(&mut ring_buffer), Err(Error::WouldBlock)));
}

#[test]
fn test_can_push_to_the_buffer() {
    let mut ring_buffer: RingBuffer<16> = RingBuffer::new();
    let (mut writer, _reader) = ring_buffer.split().unwrap();

    writer.push(&mut ring_buffer, 123).unwrap();
}

#[test]
fn test_can_pop_from_the_buffer() {
    let mut ring_buffer: RingBuffer<16> = RingBuffer::new();
    let (mut writer, mut reader) = ring_buffer.split().unwrap();

    writer.push(&mut ring_buffer, 123).unwrap();
    assert_eq!(reader.pop(&mut ring_buffer).unwrap(), 123);
    assert!(matches!(reader.pop(&mut ring_buffer), Err(Error::WouldBlock)));
}

#[test]
fn test_cannot_push_more_than_its_size() {
    let mut ring_buffer: RingBuffer<4> = RingBuffer::new();
    let (mut writer, _reader) = ring_buffer.split().unwrap();

    writer.push(&mut ring_buffer, 0).unwrap();
    writer.push(&mut ring_buffer, 1).unwrap();
    writer.push(&mut ring_buffer, 2).unwrap();
    assert!(matches!(writer.push(&mut ring_buffer, 3), Err(Error::WouldBlock)));
}

#[test]
fn test_can_read_as_many_elements_as_pushed() {
    let mut ring_buffer: RingBuffer<4> = RingBuffer::new();
    let (mut writer, mut reader) = ring_buffer.split().unwrap();

    writer.push(&mut ring_buffer, 0).unwrap();
    writer.push(&mut ring_buffer, 1).unwrap();
    writer.push(&mut ring_buffer, 2).unwrap();
    assert!(matches!(writer.push(&mut ring_buffer, 3), Err(Error::WouldBlock)));

    assert_eq!(reader.pop(&mut ring_buffer).unwrap(), 0);
    assert_eq!(reader.pop(&mut ring_buffer).unwrap(), 1);
    assert_eq!(reader.pop(&mut ring_buffer).unwrap(), 2);
    assert!(matches!(reader.pop(&mut ring_buffer), Err(Error::WouldBlock)));
}

#[test]
fn test_can_keep_pushing_after_reading() {
    let mut ring_buffer: RingBuffer<4> = RingBuffer::new();
    let (mut writer, mut reader) = ring_buffer.split().unwrap();

    writer.push(&mut ring_buffer, 0).unwrap();
    writer.push(&mut ring_buffer, 1).unwrap();
    writer.push(&mut ring_buffer, 2).unwrap();
    assert!(matches!(writer.push(&mut ring_buffer, 3), Err(Error::WouldBlock)));

    assert_eq!(reader.pop(&mut ring_buffer).unwrap(), 0);

    writer.push(&mut ring_buffer, 3).unwrap();
    assert!(matches!(writer.push(&mut ring_buffer, 4), Err(Error::WouldBlock)));

    assert_eq!(reader.pop(&mut ring_buffer).unwrap(), 1);
    assert_eq!(reader.pop(&mut ring_buffer).unwrap(), 2);
    assert_eq!(reader.pop(&mut ring_buffer).unwrap(), 3);
    assert!(matches!(reader.pop(&mut ring_buffer), Err(Error::WouldBlock)));
}

#[test]
fn second_split_reports_already_split() {
    let mut ring_buffer: RingBuffer<8> = RingBuffer::new();
    let _ends = ring_buffer.split().unwrap();
    assert!(matches!(ring_buffer.split(), Err(Error::AlreadySplit)));
}

#[test]
fn bytes_come_out_in_order_across_wraparound() {
    let mut ring_buffer: RingBuffer<4> = RingBuffer::new();
    let (mut writer, mut reader) = ring_buffer.split().unwrap();
    let mut expected = 0u8;
    for round in 0..10u8 {
        writer.push(&mut ring_buffer, round * 2).unwrap();
        writer.push(&mut ring_buffer, round * 2 + 1).unwrap();
        for _ in 0..2 {
            assert_eq!(reader.pop(&mut ring_buffer).unwrap(), expected);
            expected += 1;
        }
    }
    assert!(matches!(reader.pop(&mut ring_buffer), Err(Error::WouldBlock)));
}

use p1c0_kernel::print::{console_encode, Error as PrintError, LogWriter};

#[test]
fn console_bytes_turn_line_feeds_into_crlf() {
    assert_eq!(console_encode("a\nb\n"), b"a\r\nb\r\n".to_vec());
    assert_eq!(console_encode(""), Vec::<u8>::new());
}

#[test]
fn log_writer_queues_what_fits() {
    let mut buffer: RingBuffer<8> = RingBuffer::new();
    let (writer, mut reader) = buffer.split().unwrap();
    let mut log = LogWriter { writer };
    log.write_str(&mut buffer, "abc").unwrap();
    assert!(matches!(log.write_str(&mut buffer, "defgh"), Err(PrintError::BufferFull)));
    let mut out = Vec::new();
    while let Ok(b) = reader.pop(&mut buffer) {
        out.push(b);
    }
    assert_eq!(out, b"abcdefg".to_vec());
}
