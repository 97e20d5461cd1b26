use p1c0_kernel::drivers::aic::{
    get_current_irq, irq_bit, offset_for_irq_number, Error as AicError,
};
use p1c0_kernel::drivers::interfaces::interrupt_controller::IrqType;
use p1c0_kernel::drivers::interfaces::{ticks_per_cycle, Ticks, TimerResolution};
use p1c0_kernel::drivers::spi::{
    clock_divider, completion_pending, deduct_transaction_size, pointer_alignment,
    poll_for_errors, rx_bytes, transfer_counts, tx_word, Error as SpiError, Transfer,
    TransactionSize, FIFO_DEPTH,
};

#[test]
fn alignment_of_addresses() {
    assert_eq!(pointer_alignment(0x1000), 8);
    assert_eq!(pointer_alignment(0x1004), 4);
    assert_eq!(pointer_alignment(0x1002), 2);
    assert_eq!(pointer_alignment(0x1001), 1);
}

#[test]
fn widest_word_size_that_fits() {
    assert_eq!(deduct_transaction_size(0x1000, 0x1000, 8, 4), TransactionSize::Ts4b);
    assert_eq!(deduct_transaction_size(0x1000, 0x1000, 6, 4), TransactionSize::Ts2b);
    assert_eq!(deduct_transaction_size(0x1002, 0x1002, 8, 8), TransactionSize::Ts2b);
    assert_eq!(deduct_transaction_size(0x1001, 0x1001, 8, 8), TransactionSize::Ts1b);
    assert_eq!(deduct_transaction_size(0x1000, 0x1000, 3, 0), TransactionSize::Ts1b);
    // the receive buffer's alignment counts too
    assert_eq!(deduct_transaction_size(0x1000, 0x2002, 8, 8), TransactionSize::Ts2b);
    assert_eq!(deduct_transaction_size(0x1000, 0x2001, 8, 8), TransactionSize::Ts1b);
    assert_eq!(transfer_counts(8, 4, TransactionSize::Ts4b), (2, 1));
    assert_eq!(transfer_counts(6, 0, TransactionSize::Ts2b), (3, 0));
}

#[test]
fn words_are_big_endian() {
    assert_eq!(tx_word(&[0x12, 0x34, 0x56, 0x78], TransactionSize::Ts4b), 0x12345678);
    assert_eq!(tx_word(&[0x12, 0x34], TransactionSize::Ts2b), 0x1234);
    assert_eq!(tx_word(&[0x12], TransactionSize::Ts1b), 0x12);
    assert_eq!(rx_bytes(0x12345678, TransactionSize::Ts4b), vec![0x12, 0x34, 0x56, 0x78]);
    assert_eq!(rx_bytes(0x12345678, TransactionSize::Ts2b), vec![0x56, 0x78]);
    assert_eq!(rx_bytes(0x12345678, TransactionSize::Ts1b), vec![0x78]);
}

#[test]
fn clock_divider_for_bit_period() {
    // 125 ns at 24 MHz is 3 cycles
    assert_eq!(clock_divider(125), 2);
    // 1 us is 24 cycles
    assert_eq!(clock_divider(1000), 23);
    // very slow clocks saturate
    assert_eq!(clock_divider(1_000_000), 0x7FF);
}

#[test]
fn timer_conversions() {
    let r = TimerResolution::from_hz(24_000_000);
    assert_eq!(r.into_hz(), 24_000_000);
    assert_eq!(r.into_duration(), 41);
    assert_eq!(r.ticks_to_duration(Ticks::new(24_000_000)), 1_000_000_000);
    assert_eq!(r.duration_to_ticks(1_000_000), Ticks::new(24_000));
    let t = Ticks::new(12345);
    assert!(r.duration_to_ticks(r.ticks_to_duration(t) as u128).0 <= t.0);
    assert_eq!(ticks_per_cycle(24_000_000, 10_000_000), 240_000);
}

#[test]
fn aic_offset_for_irq_number_splits_into_bank_and_bit() {
    assert!(matches!(offset_for_irq_number(33, 100), Ok((1, 1))));
    assert!(matches!(offset_for_irq_number(0, 1), Ok((0, 0))));
    assert!(matches!(offset_for_irq_number(99, 100), Ok((3, 3))));
    assert!(matches!(offset_for_irq_number(100, 100), Err(AicError::InvalidIrqNumber)));
    assert!(matches!(offset_for_irq_number(0, 0), Err(AicError::InvalidIrqNumber)));
}

#[test]
fn aic_irq_bit_is_one_shifted() {
    assert_eq!(irq_bit(0), 1);
    assert_eq!(irq_bit(5), 32);
    assert_eq!(irq_bit(31), 0x8000_0000);
}

#[test]
fn aic_current_irq_reads_event_fields() {
    assert_eq!(get_current_irq(0), None);
    assert_eq!(get_current_irq(0x0201_0005), Some((2, 5, IrqType::HW)));
    assert_eq!(get_current_irq(0x0004_1234), Some((0, 0x1234, IrqType::IPI)));
    assert_eq!(get_current_irq(0x0100_0007), Some((1, 7, IrqType::FIQ)));
}

#[test]
fn aic_event_round_trip_on_concrete_values() {
    let reg: u32 = (3u32 << 24) | (4u32 << 16) | 0x0abc;
    assert_eq!(get_current_irq(reg), Some((3, 0x0abc, IrqType::IPI)));
}

#[test]
fn spi_transfer_of_nothing_is_a_noop() {
    assert!(Transfer::new(Vec::new(), 0x1000, 0x1000, 0).is_none());
    assert!(Transfer::new(Vec::new(), 0x1000, 0x1000, 4).is_some());
}

#[test]
fn spi_transfer_pushes_words_as_fifo_room_allows() {
    let tx: Vec<u8> = (0u8..12).collect();
    let mut t = Transfer::new(tx, 0x1000, 0x1000, 0).unwrap();
    assert_eq!(t.transaction_size(), TransactionSize::Ts4b);
    assert_eq!(t.word_counts(), (3, 0));
    assert!(t.has_pending());
    assert_eq!(t.push_tx(14), vec![0x0001_0203, 0x0405_0607]);
    assert!(t.has_pending());
    assert_eq!(t.push_tx(FIFO_DEPTH), Vec::<u32>::new());
    assert_eq!(t.push_tx(0), vec![0x0809_0a0b]);
    assert!(!t.has_pending());
    assert_eq!(t.push_tx(0), Vec::<u32>::new());
}

#[test]
fn spi_transfer_collects_received_words() {
    let mut t = Transfer::new(Vec::new(), 0x1002, 0x1002, 4).unwrap();
    assert_eq!(t.transaction_size(), TransactionSize::Ts2b);
    assert_eq!(t.word_counts(), (0, 2));
    t.pop_rx(0xbeef);
    assert!(t.has_pending());
    t.pop_rx(0x1234);
    assert!(!t.has_pending());
    assert_eq!(t.into_received(), vec![0xbe, 0xef, 0x12, 0x34]);
}

#[test]
fn spi_loopback_returns_sent_bytes() {
    let tx: Vec<u8> = vec![9, 8, 7, 6, 5, 4];
    let mut t = Transfer::new(tx.clone(), 0x2001, 0x2001, 6).unwrap();
    assert_eq!(t.transaction_size(), TransactionSize::Ts1b);
    let words = t.push_tx(0);
    assert_eq!(words.len(), 6);
    for w in words {
        t.pop_rx(w);
    }
    assert_eq!(t.into_received(), tx);
}

#[test]
fn spi_errors_and_completion() {
    assert_eq!(poll_for_errors(false, false), Ok(()));
    assert_eq!(poll_for_errors(true, true), Err(SpiError::RxUnderrun));
    assert_eq!(poll_for_errors(false, true), Err(SpiError::TxOverflow));
    assert!(completion_pending(3, 0, false, true));
    assert!(!completion_pending(3, 0, true, false));
    assert!(completion_pending(3, 2, true, false));
    assert!(!completion_pending(3, 2, true, true));
    assert!(completion_pending(0, 2, true, false));
    assert!(!completion_pending(0, 0, false, false));
}

#[test]
fn ticks_survive_a_round_trip_through_nanoseconds() {
    let exact = TimerResolution::from_hz(1_000_000);
    let odd = TimerResolution::from_hz(24_000_000);
    for t in [0u64, 1, 7, 24, 1_000_003, 123_456_789] {
        let back = exact.duration_to_ticks(exact.ticks_to_duration(Ticks(t)) as u128).0;
        assert_eq!(back, t);
        let back = odd.duration_to_ticks(odd.ticks_to_duration(Ticks(t)) as u128).0;
        assert!(back == t || back + 1 == t);
    }
}
