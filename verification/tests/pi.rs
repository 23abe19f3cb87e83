use kern::pi::{expand_newlines, has_mask, timer_count, DATA_READY, TX_AVAILABLE};

#[test]
fn timer_count_joins_the_two_words() {
    assert_eq!(timer_count(0, 0), 0);
    assert_eq!(timer_count(0, 5), 5);
    assert_eq!(timer_count(1, 0), 1 << 32);
    assert_eq!(timer_count(1, 5), (1 << 32) + 5);
    assert_eq!(timer_count(0x1234_5678, 0x9abc_def0), 0x1234_5678_9abc_def0);
    assert_eq!(timer_count(u32::MAX, u32::MAX), u64::MAX);
}

#[test]
fn has_mask_asks_for_every_bit() {
    assert!(has_mask(0b1011, 0b0011));
    assert!(!has_mask(0b1001, 0b0011));
    assert!(has_mask(0, 0));
    assert!(has_mask(7, 0));
    assert!(!has_mask(0, 1));
    assert!(has_mask(u32::MAX, 0x8000_0001));
}

#[test]
fn status_bits_of_the_serial_port() {
    assert_eq!(DATA_READY, 1);
    assert_eq!(TX_AVAILABLE, 32);
    assert!(has_mask(0x21, DATA_READY));
    assert!(has_mask(0x21, TX_AVAILABLE));
    assert!(!has_mask(0x20, DATA_READY));
    assert!(!has_mask(0x01, TX_AVAILABLE));
}

#[test]
fn expand_newlines_puts_a_carriage_return_before_each_line_feed() {
    assert_eq!(expand_newlines(b"hello\n"), b"hello\r\n");
    assert_eq!(expand_newlines(b"a\nb\n\nc"), b"a\r\nb\r\n\r\nc");
    assert_eq!(expand_newlines(b"\n"), b"\r\n");
}

#[test]
fn expand_newlines_keeps_the_other_bytes() {
    assert_eq!(expand_newlines(b""), b"");
    assert_eq!(expand_newlines(b"abc"), b"abc");
    assert_eq!(expand_newlines(b"a\rb"), b"a\rb");
    assert_eq!(expand_newlines(b"a\r\nb"), b"a\r\r\nb");
}
