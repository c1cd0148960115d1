use rusip::msg::abnf::outcome::ErrorKind::Verify;
use rusip::msg::abnf::outcome::Failure::{Error, Incomplete};
use rusip::msg::abnf::{
    hnv_unreserved, is_reserved, mark, reserved, single_digit, token, unreserved, user_unreserved,
    word,
};

#[test]
fn abnf_token_parse_test() {
    assert_eq!(token("one123".as_bytes()), Err(Incomplete(1)));
    assert_eq!(token("hello world".as_bytes()), Ok((" world".as_bytes(), "hello".as_bytes())));
    assert_eq!(token("😀".as_bytes()), Ok(("😀".as_bytes(), "".as_bytes())));
    assert_eq!(token("-!%~😅".as_bytes()), Ok(("😅".as_bytes(), "-!%~".as_bytes())));
}

#[test]
fn abnf_single_digit_test() {
    assert_eq!(single_digit("1".as_bytes()), Ok(("".as_bytes(), 1)));
    assert_eq!(single_digit("35".as_bytes()), Ok(("5".as_bytes(), 3)));
    assert_eq!(single_digit("s5".as_bytes()), Err(Error("s5".as_bytes(), Verify)));
    assert_eq!(single_digit("-".as_bytes()), Err(Error("-".as_bytes(), Verify)));
    assert_eq!(single_digit("".as_bytes()), Err(Incomplete(1)));
}

#[test]
fn single_digit_takes_every_digit() {
    assert_eq!(single_digit("0".as_bytes()), Ok(("".as_bytes(), 0)));
    assert_eq!(single_digit("9x".as_bytes()), Ok(("x".as_bytes(), 9)));
    assert_eq!(single_digit(":".as_bytes()), Err(Error(":".as_bytes(), Verify)));
    assert_eq!(single_digit("/".as_bytes()), Err(Error("/".as_bytes(), Verify)));
}

#[test]
fn runs_of_each_class() {
    assert_eq!(mark("-_.!~*'()a".as_bytes()), Ok(("a".as_bytes(), "-_.!~*'()".as_bytes())));
    assert_eq!(reserved(";/?:@&=+$,a".as_bytes()), Ok(("a".as_bytes(), ";/?:@&=+$,".as_bytes())));
    assert_eq!(unreserved("aZ09-_;".as_bytes()), Ok((";".as_bytes(), "aZ09-_".as_bytes())));
    assert_eq!(user_unreserved("&=+$,;?/a".as_bytes()), Ok(("a".as_bytes(), "&=+$,;?/".as_bytes())));
    assert_eq!(hnv_unreserved("[]/?:+$a".as_bytes()), Ok(("a".as_bytes(), "[]/?:+$".as_bytes())));
    assert_eq!(word("a(b)<c>{d}\"\\ ".as_bytes()), Ok((" ".as_bytes(), "a(b)<c>{d}\"\\".as_bytes())));
}

#[test]
fn a_run_may_be_empty_and_waits_at_the_end() {
    assert_eq!(mark("a".as_bytes()), Ok(("a".as_bytes(), "".as_bytes())));
    assert_eq!(mark("".as_bytes()), Err(Incomplete(1)));
    assert_eq!(mark("--".as_bytes()), Err(Incomplete(1)));
}

#[test]
fn reserved_holds_the_slash_and_not_the_bar() {
    assert!(is_reserved(b'/'));
    assert!(!is_reserved(b'|'));
}
