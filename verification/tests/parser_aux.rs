use rusip::msg::parser_aux::{parse_token, Error};

#[test]
fn token_parsed_properly() {
    assert_eq!(parse_token(b"one123").unwrap(), b"one123");
    assert_eq!(parse_token(b"hello world").unwrap(), b"hello");
    assert!(parse_token("ðŸ˜€".as_bytes()).is_err());
    assert_eq!(parse_token("-!%~ðŸ˜…".as_bytes()).unwrap(), b"-!%~");
}

#[test]
fn no_token_at_the_start() {
    assert!(matches!(parse_token(b""), Err(Error::NotAToken)));
    assert!(matches!(parse_token(b" a"), Err(Error::NotAToken)));
    assert!(matches!(parse_token("😀".as_bytes()), Err(Error::NotAToken)));
    assert_eq!(parse_token("a😀b".as_bytes()).unwrap(), b"a");
    assert_eq!(parse_token(&[b'a', 0xe2, 0x82]).unwrap(), b"a");
    assert_eq!(parse_token(&[b'a', 0xff, b'b']).unwrap(), b"a");
}
