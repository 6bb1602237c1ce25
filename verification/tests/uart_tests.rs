use uart_shell::mmio::Bus;
use uart_shell::uart;

fn ready_bus(input: &[u8]) -> Bus {
    let mut bus = Bus::new(input.to_vec());
    uart::init(&mut bus, 4);
    bus
}

#[test]
fn init_programs_the_line() {
    let mut bus = Bus::new(Vec::new());
    uart::init(&mut bus, 4);
    assert_eq!(bus.base, 0xFE000000);
    assert_eq!(bus.cr, 0x301);
    assert_eq!(bus.ibrd, 1);
    assert_eq!(bus.fbrd, 40);
    assert_eq!(bus.lcrh, 0x70);
    assert_eq!(bus.imsc, 0x7F2);
    assert_eq!(bus.icr, 0x7FF);
    assert_eq!(bus.gppud, 0);
    assert_eq!(bus.gppudclk0, 0);
    assert!(bus.tx.is_empty());
}

#[test]
fn init_negotiates_clock_on_new_platforms() {
    let mut bus = Bus::new(Vec::new());
    uart::init(&mut bus, 3);
    // The request word: the aligned message address OR'd with channel 8.
    assert_eq!(bus.mbox_last, (uart::MBOX_MSG_ADDR & !0xF) | 8);
}

#[test]
fn init_skips_mailbox_on_old_platforms() {
    let mut bus = Bus::new(Vec::new());
    uart::init(&mut bus, 2);
    assert_eq!(bus.mbox_last, 0);
}

#[test]
fn request_word_keeps_channel_in_low_bits() {
    let r = uart::mbox_request_word(0x1234567C);
    assert_eq!(r, 0x12345678);
    assert_eq!(r & 0xF, 8);
    // Low four bits are the channel tag whatever the address was.
    assert_eq!(uart::mbox_request_word(0xFFFFFFFF) & 0xF, 8);
    assert_eq!(uart::mbox_request_word(0) & 0xF, 8);
}

#[test]
fn mbox_message_contents() {
    let m = uart::mbox_message();
    assert_eq!(m, [36, 0, 0x38002, 12, 8, 2, 3000000, 0, 0]);
}

#[test]
fn putb_and_puts_transmit_in_order() {
    let mut bus = ready_bus(&[]);
    uart::putb(&mut bus, 65);
    uart::puts(&mut bus, &[66, 67]);
    assert_eq!(bus.tx, vec![65u8, 66, 67]);
}

#[test]
fn put_u8_sends_two_hex_digits() {
    let mut bus = ready_bus(&[]);
    uart::put_u8(&mut bus, 0xAB);
    assert_eq!(bus.tx, b"AB".to_vec());
    uart::put_u8(&mut bus, 0x09);
    assert_eq!(&bus.tx[2..], b"09");
    uart::put_u8(&mut bus, 0x00);
    assert_eq!(&bus.tx[4..], b"00");
}

#[test]
fn getb_delivers_pending_bytes() {
    let mut bus = ready_bus(b"hi");
    assert_eq!(uart::getb(&mut bus), b'h');
    assert_eq!(uart::getb(&mut bus), b'i');
    assert!(bus.rx.is_empty());
}

#[test]
fn gets_reads_one_line() {
    let mut bus = ready_bus(b"abc\n");
    let mut buf = vec![0u8; 128];
    let len = uart::gets(&mut bus, &mut buf);
    assert_eq!(len, 3);
    assert_eq!(&buf[..len], b"abc");
    assert_eq!(bus.tx, b"abc\r\n".to_vec());
    assert!(bus.rx.is_empty());
}

#[test]
fn gets_treats_carriage_return_as_terminator() {
    let mut bus = ready_bus(b"ok\rrest");
    let mut buf = vec![0u8; 128];
    let len = uart::gets(&mut bus, &mut buf);
    assert_eq!(len, 2);
    assert_eq!(&buf[..len], b"ok");
    assert_eq!(bus.tx, b"ok\r\n".to_vec());
    assert_eq!(bus.rx, b"rest".to_vec());
}

#[test]
fn gets_backspace_erases_one_byte() {
    let mut bus = ready_bus(b"ab\x08c\n");
    let mut buf = vec![0u8; 128];
    let len = uart::gets(&mut bus, &mut buf);
    assert_eq!(len, 2);
    assert_eq!(&buf[..len], b"ac");
    assert_eq!(bus.tx, b"ab\x08 \x08c\r\n".to_vec());
}

#[test]
fn gets_backspace_never_underflows() {
    let mut bus = ready_bus(b"\x08\x08a\n");
    let mut buf = vec![0u8; 128];
    let len = uart::gets(&mut bus, &mut buf);
    assert_eq!(len, 1);
    assert_eq!(&buf[..len], b"a");
}

#[test]
fn gets_returns_capacity_when_buffer_fills() {
    let mut input = vec![b'a'; 128];
    input.extend_from_slice(b"tail");
    let mut bus = ready_bus(&input);
    let mut buf = vec![0u8; 128];
    let len = uart::gets(&mut bus, &mut buf);
    assert_eq!(len, 128);
    assert_eq!(buf, vec![b'a'; 128]);
    // Exactly 128 bytes were consumed and echoed; no terminator was awaited.
    assert_eq!(bus.rx, b"tail".to_vec());
    assert_eq!(bus.tx, vec![b'a'; 128]);
}

#[test]
fn gets_capacity_honours_small_buffers() {
    let mut bus = ready_bus(b"hello\n");
    let mut buf = vec![0u8; 3];
    let len = uart::gets(&mut bus, &mut buf);
    assert_eq!(len, 3);
    assert_eq!(&buf[..], b"hel");
    assert_eq!(bus.rx, b"lo\n".to_vec());
}

#[test]
fn delay_leaves_the_machine_alone() {
    let mut bus = ready_bus(b"x");
    let tx_before = bus.tx.clone();
    uart::delay(&mut bus, 150);
    assert_eq!(bus.tx, tx_before);
    assert_eq!(bus.rx, b"x".to_vec());
}
