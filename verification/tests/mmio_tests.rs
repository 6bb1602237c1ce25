use uart_shell::mmio;
use uart_shell::mmio::Bus;

#[test]
fn locator_recognized_bases() {
    let mut bus = Bus::new(Vec::new());
    mmio::init(&mut bus, 2);
    assert_eq!(bus.base, 0x3F000000);
    mmio::init(&mut bus, 3);
    assert_eq!(bus.base, 0x3F000000);
    mmio::init(&mut bus, 4);
    assert_eq!(bus.base, 0xFE000000);
}

#[test]
fn locator_fallback_is_deterministic() {
    for id in [0u32, 1, 5, 7, 99, u32::MAX] {
        let mut bus = Bus::new(Vec::new());
        mmio::init(&mut bus, id);
        assert_eq!(bus.base, 0x20000000);
    }
}

#[test]
fn preinit_write_is_a_no_op() {
    let mut bus = Bus::new(vec![42u8]);
    mmio::write(&mut bus, mmio::UART0_DR, 65);
    mmio::write(&mut bus, mmio::UART0_CR, 0x301);
    assert!(bus.tx.is_empty());
    assert_eq!(bus.cr, 0);
    assert_eq!(bus.rx, vec![42u8]);
}

#[test]
fn preinit_read_returns_zero() {
    let mut bus = Bus::new(vec![42u8]);
    assert_eq!(mmio::read(&mut bus, mmio::UART0_DR), 0);
    assert_eq!(mmio::read(&mut bus, mmio::UART0_FR), 0);
    assert_eq!(mmio::read(&mut bus, mmio::MBOX_STATUS), 0);
    // The pending receive byte was not consumed.
    assert_eq!(bus.rx, vec![42u8]);
}

#[test]
fn initialized_write_latches_registers() {
    let mut bus = Bus::new(Vec::new());
    mmio::init(&mut bus, 4);
    mmio::write(&mut bus, mmio::UART0_IBRD, 1);
    mmio::write(&mut bus, mmio::UART0_FBRD, 40);
    assert_eq!(bus.ibrd, 1);
    assert_eq!(bus.fbrd, 40);
}

#[test]
fn initialized_data_register_moves_bytes() {
    let mut bus = Bus::new(vec![7u8, 9u8]);
    mmio::init(&mut bus, 1);
    mmio::write(&mut bus, mmio::UART0_DR, 65);
    assert_eq!(bus.tx, vec![65u8]);
    assert_eq!(mmio::read(&mut bus, mmio::UART0_DR), 7);
    assert_eq!(mmio::read(&mut bus, mmio::UART0_DR), 9);
    assert_eq!(mmio::read(&mut bus, mmio::UART0_FR) & 0x10, 0x10);
}
