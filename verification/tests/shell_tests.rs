use uart_shell::mmio::Bus;
use uart_shell::shell;
use uart_shell::uart;

fn ready_bus(input: &[u8]) -> Bus {
    let mut bus = Bus::new(input.to_vec());
    uart::init(&mut bus, 4);
    bus
}

#[test]
fn utf8_accepts_well_formed_text() {
    assert!(shell::is_valid_utf8(b""));
    assert!(shell::is_valid_utf8(b"plain ascii"));
    assert!(shell::is_valid_utf8(&[0xC3, 0xA9])); // two-byte scalar
    assert!(shell::is_valid_utf8(&[0xE2, 0x82, 0xAC])); // three-byte scalar
    assert!(shell::is_valid_utf8(&[0xF0, 0x9F, 0x98, 0x80])); // four-byte scalar
}

#[test]
fn utf8_rejects_malformed_text() {
    assert!(!shell::is_valid_utf8(&[0xFF]));
    assert!(!shell::is_valid_utf8(&[0x80])); // stray continuation byte
    assert!(!shell::is_valid_utf8(&[0xC0, 0x80])); // overlong two-byte
    assert!(!shell::is_valid_utf8(&[0xE0, 0x80, 0x80])); // overlong three-byte
    assert!(!shell::is_valid_utf8(&[0xED, 0xA0, 0x80])); // surrogate
    assert!(!shell::is_valid_utf8(&[0xF4, 0x90, 0x80, 0x80])); // beyond last scalar
    assert!(!shell::is_valid_utf8(&[0xE2, 0x82])); // truncated
    assert!(!shell::is_valid_utf8(b"ok\xC3")); // truncated at the end
}

#[test]
fn split_keeps_empty_tokens() {
    let toks = shell::split_bytes_exec(b"echo  x", 32);
    let views: Vec<&[u8]> = toks.iter().map(|t| t.as_slice()).collect();
    assert_eq!(views, vec![b"echo".as_slice(), b"".as_slice(), b"x".as_slice()]);
}

#[test]
fn split_of_empty_line_is_one_empty_token() {
    let toks = shell::split_bytes_exec(b"", 32);
    assert_eq!(toks.len(), 1);
    assert!(toks[0].is_empty());
}

#[test]
fn echo_round_trip() {
    let mut bus = ready_bus(&[]);
    let exit = shell::parse_and_execute(&mut bus, b"echo hi there");
    assert!(!exit);
    assert_eq!(bus.tx, b"hi there \r\n".to_vec());
}

#[test]
fn echo_keeps_the_empty_token_of_a_double_space() {
    let mut bus = ready_bus(&[]);
    shell::parse_and_execute(&mut bus, b"echo  x");
    // The gap between the two spaces is an empty token, not collapsed.
    assert_eq!(bus.tx, b" x \r\n".to_vec());
}

#[test]
fn echo_with_no_arguments_emits_a_blank_line() {
    let mut bus = ready_bus(&[]);
    shell::parse_and_execute(&mut bus, b"echo");
    assert_eq!(bus.tx, b"\r\n".to_vec());
}

#[test]
fn exe_has_no_observable_effect() {
    let mut bus = ready_bus(&[]);
    let exit = shell::parse_and_execute(&mut bus, b"exe a b");
    assert!(!exit);
    assert!(bus.tx.is_empty());
}

#[test]
fn unknown_commands_are_reported() {
    let mut bus = ready_bus(&[]);
    let exit = shell::parse_and_execute(&mut bus, b"foo");
    assert!(!exit);
    assert_eq!(bus.tx, b"Unrecognized command: 'foo'\r\n".to_vec());
}

#[test]
fn unknown_command_quotes_the_first_token_only() {
    let mut bus = ready_bus(&[]);
    shell::parse_and_execute(&mut bus, b"frob a b");
    assert_eq!(bus.tx, b"Unrecognized command: 'frob'\r\n".to_vec());
}

#[test]
fn command_names_are_case_sensitive() {
    let mut bus = ready_bus(&[]);
    shell::parse_and_execute(&mut bus, b"Echo hi");
    assert_eq!(bus.tx, b"Unrecognized command: 'Echo'\r\n".to_vec());
}

#[test]
fn empty_line_draws_a_blank_line() {
    let mut bus = ready_bus(&[]);
    let exit = shell::parse_and_execute(&mut bus, b"");
    assert!(!exit);
    assert_eq!(bus.tx, b"\r\n".to_vec());
}

#[test]
fn line_pending_spots_terminators_and_full_buffers() {
    assert!(shell::line_pending(&b"abc\n".to_vec(), 128));
    assert!(shell::line_pending(&b"abc\rdef".to_vec(), 128));
    assert!(!shell::line_pending(&b"abc".to_vec(), 128));
    assert!(shell::line_pending(&vec![b'a'; 128], 128));
    assert!(!shell::line_pending(&vec![b'a'; 127], 128));
    // Backspaces give room back: 128 plain bytes after one erasure fall short.
    let mut v = vec![b'a', 0x08];
    v.extend_from_slice(&vec![b'b'; 127]);
    assert!(!shell::line_pending(&v, 128));
}

#[test]
fn shell_session_round_trip() {
    let mut bus = ready_bus(b"echo hi there\n");
    shell::run_shell(&mut bus);
    let expected = b"bk> echo hi there\r\nhi there \r\nbk> ".to_vec();
    assert_eq!(bus.tx, expected);
    assert!(bus.rx.is_empty());
}

#[test]
fn shell_session_reports_unknown_and_continues() {
    let mut bus = ready_bus(b"bad\necho ok\n");
    shell::run_shell(&mut bus);
    let expected = b"bk> bad\r\nUnrecognized command: 'bad'\r\nbk> echo ok\r\nok \r\nbk> "
        .to_vec();
    assert_eq!(bus.tx, expected);
}

#[test]
fn shell_session_reports_invalid_utf8_and_continues() {
    let mut bus = ready_bus(&[0xFF, b'\n', b'e', b'x', b'e', b'\n']);
    shell::run_shell(&mut bus);
    let mut expected = b"bk> ".to_vec();
    expected.push(0xFF); // the byte is echoed verbatim while being typed
    expected.extend_from_slice(b"\r\nInvalid command. Must be valid utf8.\r\nbk> exe\r\nbk> ");
    assert_eq!(bus.tx, expected);
}

#[test]
fn shell_session_with_no_input_just_prompts() {
    let mut bus = ready_bus(&[]);
    shell::run_shell(&mut bus);
    assert_eq!(bus.tx, b"bk> ".to_vec());
}

#[test]
fn shell_leaves_an_unterminated_line_pending() {
    let mut bus = ready_bus(b"exe\necho partial");
    shell::run_shell(&mut bus);
    assert_eq!(bus.tx, b"bk> exe\r\nbk> ".to_vec());
    assert_eq!(bus.rx, b"echo partial".to_vec());
}
