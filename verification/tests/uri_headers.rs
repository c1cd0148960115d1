use rusip::msg::abnf::outcome::ErrorKind::{Alt, Verify};
use rusip::msg::abnf::outcome::Failure::{Error, Incomplete};
use rusip::msg::abnf::uri_headers::{header, headers, hname, hnv_unreserved, hvalue, ParseError};

#[test]
fn headers_test() {
    let mut hdrs = ["".as_bytes(); 10];
    assert_eq!(headers("?a=b&cdf=&[%ff]=_/.?".as_bytes(), &mut hdrs), Ok(("".as_bytes(), 6)));

    assert_eq!(hdrs[0], "a".as_bytes());
    assert_eq!(hdrs[1], "b".as_bytes());
    assert_eq!(hdrs[2], "cdf".as_bytes());
    assert_eq!(hdrs[3], "".as_bytes());
    assert_eq!(hdrs[4], "[%ff]".as_bytes());
    assert_eq!(hdrs[5], "_/.?".as_bytes());

    assert_eq!(headers("?a=b".as_bytes(), &mut []), Err(ParseError::NotEnoughOutSpace { written: 0 }));
    assert_eq!(headers("?a=b&c=d".as_bytes(), &mut hdrs[..1]), Err(ParseError::NotEnoughOutSpace { written: 0 }));
    assert_eq!(headers("?a=b&c=d".as_bytes(), &mut hdrs[..2]), Err(ParseError::NotEnoughOutSpace { written: 2 }));
}

#[test]
fn a_full_array_keeps_what_was_written() {
    let mut out = ["-".as_bytes(); 3];
    assert_eq!(headers("?a=b&c=d".as_bytes(), &mut out), Err(ParseError::NotEnoughOutSpace { written: 2 }));
    assert_eq!(out, ["a".as_bytes(), "b".as_bytes(), "-".as_bytes()]);

    let mut out = ["-".as_bytes(); 1];
    assert_eq!(headers("?a=b&c=d".as_bytes(), &mut out), Err(ParseError::NotEnoughOutSpace { written: 0 }));
    assert_eq!(out, ["-".as_bytes()]);

    let mut out = ["-".as_bytes(); 5];
    assert_eq!(headers("?a=b&c=d rest".as_bytes(), &mut out), Ok((" rest".as_bytes(), 4)));
    assert_eq!(out, ["a".as_bytes(), "b".as_bytes(), "c".as_bytes(), "d".as_bytes(), "-".as_bytes()]);
}

#[test]
fn where_the_list_of_headers_ends() {
    let mut out = ["-".as_bytes(); 4];
    assert_eq!(headers("a=b".as_bytes(), &mut out), Ok(("a=b".as_bytes(), 0)));
    assert_eq!(headers("".as_bytes(), &mut out), Ok(("".as_bytes(), 0)));
    assert_eq!(headers("?".as_bytes(), &mut out), Ok(("".as_bytes(), 0)));
    assert_eq!(headers("?=b".as_bytes(), &mut out), Ok(("=b".as_bytes(), 0)));
    assert_eq!(headers("?a".as_bytes(), &mut out), Ok(("a".as_bytes(), 0)));
    assert_eq!(out, ["-".as_bytes(); 4]);
    assert_eq!(headers("?a=b&".as_bytes(), &mut out), Ok(("&".as_bytes(), 2)));
    assert_eq!(headers("?a=b&c".as_bytes(), &mut out), Ok(("&c".as_bytes(), 2)));
    assert_eq!(headers("?a=b?c=d".as_bytes(), &mut out), Ok(("=d".as_bytes(), 2)));
    assert_eq!(out[1], "b?c".as_bytes());
}

#[test]
fn names_and_values_of_headers() {
    assert_eq!(hname("ab%20c=".as_bytes()), Ok(("=".as_bytes(), "ab%20c".as_bytes())));
    assert_eq!(hname("=".as_bytes()), Err(Error("=".as_bytes(), Alt)));
    assert_eq!(hname("".as_bytes()), Err(Incomplete(1)));
    assert_eq!(hname("%".as_bytes()), Err(Incomplete(1)));
    assert_eq!(hname("%4".as_bytes()), Err(Incomplete(1)));
    assert_eq!(hname("%zz".as_bytes()), Err(Error("%zz".as_bytes(), Alt)));
    assert_eq!(hname("a%4".as_bytes()), Ok(("%4".as_bytes(), "a".as_bytes())));
    assert_eq!(hname("abc".as_bytes()), Ok(("".as_bytes(), "abc".as_bytes())));
    assert_eq!(hvalue("".as_bytes()), Ok(("".as_bytes(), "".as_bytes())));
    assert_eq!(hvalue("=".as_bytes()), Ok(("=".as_bytes(), "".as_bytes())));
    assert_eq!(hvalue("[x]&".as_bytes()), Ok(("&".as_bytes(), "[x]".as_bytes())));
    assert_eq!(header("a=b&".as_bytes()), Ok(("&".as_bytes(), ("a".as_bytes(), "b".as_bytes()))));
    assert_eq!(header("a".as_bytes()), Err(Incomplete(1)));
    assert_eq!(header("a&".as_bytes()), Err(Error("&".as_bytes(), Verify)));
    assert_eq!(hnv_unreserved("[".as_bytes()), Ok(("".as_bytes(), b'[')));
    assert_eq!(hnv_unreserved("a".as_bytes()), Err(Error("a".as_bytes(), Verify)));
}
