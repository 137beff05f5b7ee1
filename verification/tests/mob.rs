use protohackers::mob::{find_and_replace_bc, parse_message, ParseError, TONYSBOGUSCOIN};

#[test]
fn reads_lines_one_at_a_time() {
    let mut buffer = b"hello\nworld".to_vec();
    assert_eq!(parse_message(&mut buffer), Ok(Some("hello".to_string())));
    assert_eq!(buffer, b"world".to_vec());
    assert_eq!(parse_message(&mut buffer), Ok(None));
    assert_eq!(buffer, b"world".to_vec());
}

#[test]
fn a_line_that_is_not_utf8_is_an_error_and_dropped() {
    let mut buffer = vec![0xff, b'\n', b'o', b'k', b'\n'];
    assert_eq!(parse_message(&mut buffer), Err(ParseError::InvalidData));
    assert_eq!(parse_message(&mut buffer), Ok(Some("ok".to_string())));
}

#[test]
fn address_after_a_space_is_rewritten() {
    let out = find_and_replace_bc("Hi 7iKDZEwPZSqIvDnHvVN2r0hUWXD5rHX").unwrap();
    assert_eq!(out, format!("Hi{}", TONYSBOGUSCOIN));
}

#[test]
fn address_before_a_space_is_rewritten() {
    let out = find_and_replace_bc("7iKDZEwPZSqIvDnHvVN2r0hUWXD5rHX please").unwrap();
    assert_eq!(out, format!("{}please", TONYSBOGUSCOIN));
}

#[test]
fn lines_without_addresses_are_unchanged() {
    assert_eq!(find_and_replace_bc("hello there").unwrap(), "hello there");
    assert_eq!(find_and_replace_bc("Hi 7short").unwrap(), "Hi 7short");
}
