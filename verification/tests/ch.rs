use rusip::msg::abnf::ch::{
    alpha, alphanum, escaped, mark, token, unreserved, user_unreserved, utf8, utf8_char_width,
    word,
};
use rusip::msg::abnf::outcome::ErrorKind::{Alt, Char, TakeWhile1, Verify};
use rusip::msg::abnf::outcome::Failure::{Error, Incomplete};

#[test]
fn ch_token_parse_test() {
    assert_eq!(token("one123".as_bytes()), Err(Incomplete(1)));
    assert_eq!(token("hello world".as_bytes()), Ok((" world".as_bytes(), "hello".as_bytes())));
    assert_eq!(token("ğŸ˜€".as_bytes()), Err(Error("ğŸ˜€".as_bytes(), TakeWhile1)));
    assert_eq!(token("-!%~ğŸ˜…".as_bytes()), Ok(("ğŸ˜…".as_bytes(), "-!%~".as_bytes())));
}

#[test]
fn utf8_parse_test() {
    assert_eq!(utf8("hh".as_bytes()), Ok(("h".as_bytes(), 'h')));
    assert_eq!(utf8("🤣😄".as_bytes()), Ok(("😄".as_bytes(), '🤣')));
    assert_eq!(utf8("ğŸ¤£ğŸ˜„".as_bytes()), Ok(("Ÿ¤£ğŸ˜„".as_bytes(), 'ğ')));
    assert_eq!(utf8("".as_bytes()), Err(Incomplete(1)));
}

#[test]
fn utf8_turns_down_what_is_malformed() {
    let lone_continuation: &[u8] = &[0x80, b'a'];
    assert_eq!(utf8(lone_continuation), Err(Error(lone_continuation, Char)));
    let truncated: &[u8] = &[0xe2, 0x82];
    assert_eq!(utf8(truncated), Err(Error(truncated, Char)));
    let overlong: &[u8] = &[0xe0, 0x80, 0x80];
    assert_eq!(utf8(overlong), Err(Error(overlong, Char)));
    let surrogate: &[u8] = &[0xed, 0xa0, 0x80];
    assert_eq!(utf8(surrogate), Err(Error(surrogate, Char)));
    let euro: &[u8] = &[0xe2, 0x82, 0xac, b'1'];
    assert_eq!(utf8(euro), Ok(("1".as_bytes(), '€')));
    let two: &[u8] = &[0xc3, 0xa9];
    assert_eq!(utf8(two), Ok(("".as_bytes(), 'é')));
}

#[test]
fn width_by_first_byte() {
    assert_eq!(utf8_char_width(0x00), 1);
    assert_eq!(utf8_char_width(0x7f), 1);
    assert_eq!(utf8_char_width(0x80), 0);
    assert_eq!(utf8_char_width(0xbf), 0);
    assert_eq!(utf8_char_width(0xc0), 0);
    assert_eq!(utf8_char_width(0xc1), 0);
    assert_eq!(utf8_char_width(0xc2), 2);
    assert_eq!(utf8_char_width(0xdf), 2);
    assert_eq!(utf8_char_width(0xe0), 3);
    assert_eq!(utf8_char_width(0xef), 3);
    assert_eq!(utf8_char_width(0xf0), 4);
    assert_eq!(utf8_char_width(0xf4), 4);
    assert_eq!(utf8_char_width(0xf5), 0);
    assert_eq!(utf8_char_width(0xff), 0);
}

#[test]
fn single_characters() {
    assert_eq!(alpha("a1".as_bytes()), Ok(("1".as_bytes(), b'a')));
    assert_eq!(alpha("1a".as_bytes()), Err(Error("1a".as_bytes(), Verify)));
    assert_eq!(alphanum("1a".as_bytes()), Ok(("a".as_bytes(), b'1')));
    assert_eq!(alphanum("-".as_bytes()), Err(Error("-".as_bytes(), Verify)));
    assert_eq!(mark("~".as_bytes()), Ok(("".as_bytes(), b'~')));
    assert_eq!(unreserved("*".as_bytes()), Ok(("".as_bytes(), b'*')));
    assert_eq!(unreserved(";".as_bytes()), Err(Error(";".as_bytes(), Alt)));
    assert_eq!(unreserved("".as_bytes()), Err(Incomplete(1)));
    assert_eq!(user_unreserved(";".as_bytes()), Ok(("".as_bytes(), b';')));
    assert_eq!(word("".as_bytes()), Err(Incomplete(1)));
    assert_eq!(word("<a> ".as_bytes()), Ok((" ".as_bytes(), "<a>".as_bytes())));
}

#[test]
fn an_escape_is_three_bytes_for_one() {
    assert_eq!(escaped("%41z".as_bytes()), Ok(("z".as_bytes(), 0x41)));
    assert_eq!(escaped("%fF".as_bytes()), Ok(("".as_bytes(), 0xff)));
    assert_eq!(escaped("%0a".as_bytes()), Ok(("".as_bytes(), 0x0a)));
    assert_eq!(escaped("%4".as_bytes()), Err(Incomplete(1)));
    assert_eq!(escaped("%".as_bytes()), Err(Incomplete(1)));
    assert_eq!(escaped("%g1".as_bytes()), Err(Error("g1".as_bytes(), Verify)));
    assert_eq!(escaped("a".as_bytes()), Err(Error("a".as_bytes(), Verify)));
}
