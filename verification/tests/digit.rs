use rusip::msg::abnf::digit::{dec_u8, h16, single, single_hex};
use rusip::msg::abnf::outcome::ErrorKind::{Digit, Verify};
use rusip::msg::abnf::outcome::Failure::{Error, Incomplete};

#[test]
fn digit_single_digit_test() {
    assert_eq!(single("0".as_bytes()), Ok(("".as_bytes(), 0)));
    assert_eq!(single("9".as_bytes()), Ok(("".as_bytes(), 9)));
    assert_eq!(single("1".as_bytes()), Ok(("".as_bytes(), 1)));
    assert_eq!(single("35".as_bytes()), Ok(("5".as_bytes(), 3)));
    assert_eq!(single("s5".as_bytes()), Err(Error("s5".as_bytes(), Verify)));
    assert_eq!(single("-".as_bytes()), Err(Error("-".as_bytes(), Verify)));
    assert_eq!(single("".as_bytes()), Err(Incomplete(1)));
}

#[test]
fn parse_dec_u8() {
    assert_eq!(dec_u8("0".as_bytes()), Ok(("".as_bytes(), 0)));
    assert_eq!(dec_u8("1".as_bytes()), Ok(("".as_bytes(), 1)));
    assert_eq!(dec_u8("10".as_bytes()), Ok(("".as_bytes(), 10)));
    assert_eq!(dec_u8("99".as_bytes()), Ok(("".as_bytes(), 99)));
    assert_eq!(dec_u8("127".as_bytes()), Ok(("".as_bytes(), 127)));
    assert_eq!(dec_u8("255".as_bytes()), Ok(("".as_bytes(), 255)));
    assert_eq!(dec_u8("2553".as_bytes()), Ok(("3".as_bytes(), 255)));
    assert!(dec_u8("256".as_bytes()).is_err());
    assert!(dec_u8("".as_bytes()).is_err());
    assert!(dec_u8("k".as_bytes()).is_err());
}

#[test]
fn an_octet_stops_before_the_digit_that_passes_255() {
    assert_eq!(dec_u8("256".as_bytes()), Err(Error("6".as_bytes(), Digit)));
    assert_eq!(dec_u8("999".as_bytes()), Err(Error("9".as_bytes(), Digit)));
    assert_eq!(dec_u8("300.".as_bytes()), Err(Error("0.".as_bytes(), Digit)));
    assert_eq!(dec_u8("".as_bytes()), Err(Incomplete(1)));
    assert_eq!(dec_u8("k".as_bytes()), Err(Error("k".as_bytes(), Verify)));
    assert_eq!(dec_u8("007".as_bytes()), Ok(("".as_bytes(), 7)));
    assert_eq!(dec_u8("25a".as_bytes()), Ok(("a".as_bytes(), 25)));
}

#[test]
fn h16_parse_test() {
    assert_eq!(h16("0".as_bytes()), Ok(("".as_bytes(), 0)));
    assert_eq!(h16("a".as_bytes()), Ok(("".as_bytes(), 0xa)));
    assert_eq!(h16("F".as_bytes()), Ok(("".as_bytes(), 0xf)));
    assert_eq!(h16("aBx".as_bytes()), Ok(("x".as_bytes(), 0xab)));
    assert_eq!(h16("aB12x".as_bytes()), Ok(("x".as_bytes(), 0xab12)));
    assert_eq!(h16("ce0x".as_bytes()), Ok(("x".as_bytes(), 0xce0)));
    assert_eq!(h16("77777".as_bytes()), Ok(("7".as_bytes(), 0x7777)));
    assert!(h16("".as_bytes()).is_err());
    assert!(h16("r".as_bytes()).is_err());
}

#[test]
fn hex_digits_of_either_case() {
    assert_eq!(single_hex("a".as_bytes()), Ok(("".as_bytes(), 10)));
    assert_eq!(single_hex("F1".as_bytes()), Ok(("1".as_bytes(), 15)));
    assert_eq!(single_hex("9".as_bytes()), Ok(("".as_bytes(), 9)));
    assert_eq!(single_hex("g".as_bytes()), Err(Error("g".as_bytes(), Verify)));
    assert_eq!(single_hex("".as_bytes()), Err(Incomplete(1)));
    assert_eq!(h16("ffff".as_bytes()), Ok(("".as_bytes(), 0xffff)));
    assert_eq!(h16("".as_bytes()), Err(Incomplete(1)));
    assert_eq!(h16("r".as_bytes()), Err(Error("r".as_bytes(), Verify)));
}
