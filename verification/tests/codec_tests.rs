use line_relay::codec::{ack_line, decimal_string, login_line, message_line, parse_u16, port_or_default};

#[test]
fn login_line_format() {
    assert_eq!(login_line(4242), "LOGIN:4242\n");
}

#[test]
fn login_line_smallest_id() {
    assert_eq!(login_line(0), "LOGIN:0\n");
}

#[test]
fn login_line_largest_id() {
    assert_eq!(login_line(65535), "LOGIN:65535\n");
}

#[test]
fn login_lines_of_two_clients() {
    assert_eq!(login_line(5001), "LOGIN:5001\n");
    assert_eq!(login_line(5002), "LOGIN:5002\n");
}

#[test]
fn decimal_string_round_number() {
    assert_eq!(decimal_string(8888), "8888");
}

#[test]
fn decimal_string_single_digit() {
    assert_eq!(decimal_string(7), "7");
}

#[test]
fn message_line_format() {
    assert_eq!(message_line(7, "hello"), "MESSAGE:7 hello\n");
}

#[test]
fn message_line_empty_text() {
    assert_eq!(message_line(7, ""), "MESSAGE:7 \n");
}

#[test]
fn message_line_text_with_spaces() {
    assert_eq!(message_line(50321, "a b  c"), "MESSAGE:50321 a b  c\n");
}

#[test]
fn ack_line_format() {
    assert_eq!(ack_line(), "ACK:MESSAGE\n");
}

#[test]
fn parse_plain_number() {
    assert_eq!(parse_u16("9999"), Some(9999));
}

#[test]
fn parse_leading_plus() {
    assert_eq!(parse_u16("+80"), Some(80));
}

#[test]
fn parse_leading_zeros() {
    assert_eq!(parse_u16("070"), Some(70));
}

#[test]
fn parse_largest_value() {
    assert_eq!(parse_u16("65535"), Some(65535));
}

#[test]
fn parse_rejects_too_large() {
    assert_eq!(parse_u16("65536"), None);
}

#[test]
fn parse_rejects_letters() {
    assert_eq!(parse_u16("abc"), None);
}

#[test]
fn parse_rejects_trailing_garbage() {
    assert_eq!(parse_u16("12a"), None);
}

#[test]
fn parse_rejects_empty() {
    assert_eq!(parse_u16(""), None);
}

#[test]
fn parse_rejects_bare_plus() {
    assert_eq!(parse_u16("+"), None);
}

#[test]
fn parse_rejects_negative() {
    assert_eq!(parse_u16("-1"), None);
}

#[test]
fn port_defaults_without_argument() {
    assert_eq!(port_or_default(None), 8888);
}

#[test]
fn port_defaults_on_garbage() {
    assert_eq!(port_or_default(Some("not-a-port")), 8888);
}

#[test]
fn port_defaults_on_out_of_range() {
    assert_eq!(port_or_default(Some("70000")), 8888);
}

#[test]
fn port_takes_valid_argument() {
    assert_eq!(port_or_default(Some("9999")), 9999);
}
