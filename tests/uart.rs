use drivers::uart::{Uart, UART2_BASE};

#[test]
fn line_feed_becomes_crlf() {
    assert_eq!(Uart::line_bytes("a\nb\n"), b"a\r\nb\r\n".to_vec());
    assert_eq!(Uart::line_bytes(""), Vec::<u8>::new());
    assert_eq!(Uart::line_bytes("ok"), b"ok".to_vec());
}

#[test]
fn baud_divisor_at_115200() {
    assert_eq!(Uart::baud_divisor(115_200), 13);
    assert_eq!(Uart::baud_divisor(1_500_000), 1);
}

#[test]
fn uart_base() {
    assert_eq!(Uart::new(UART2_BASE).base(), UART2_BASE);
}
