use rusip::msg::abnf::outcome::Failure::Incomplete;
use rusip::msg::method::{assemble, parse, Method};

#[test]
fn method_parse_test() {
    assert_eq!(parse::method("INVITE".as_bytes()), Ok(("".as_bytes(), Method::Invite)));
    assert_eq!(parse::method("REGISTER".as_bytes()), Ok(("".as_bytes(), Method::Register)));
    assert_eq!(parse::method("AC".as_bytes()), Err(Incomplete(3)));
    assert_eq!(parse::method("BYE some".as_bytes()), Ok((" some".as_bytes(), Method::Bye)));
    assert_eq!(parse::method("asdf-sdf .".as_bytes()), Ok((" .".as_bytes(), Method::Token("asdf-sdf".as_bytes()))));
}

#[test]
fn method_assemble_test() {
    let mut output = [0 as u8; 21];
    assert_eq!(assemble::method(Method::Invite, &mut output).unwrap(), 6);
    assert_eq!(std::str::from_utf8(&output[0..6]).unwrap(), "INVITE");

    assert_eq!(assemble::method(Method::Token(b"REFER"), &mut output[6..]).unwrap(), 5);
    assert_eq!(std::str::from_utf8(&output[0..11]).unwrap(), "INVITEREFER");

    assert_eq!(assemble::method(Method::Token(b"SUBSCRIBE"), &mut output[11..]).unwrap(), 9);
    assert_eq!(std::str::from_utf8(&output[0..20]).unwrap(), "INVITEREFERSUBSCRIBE");

    assert!(assemble::method(Method::Options, &mut output[20..]).is_err());
    assert_eq!(std::str::from_utf8(&output).unwrap(), "INVITEREFERSUBSCRIBEO");

    assert!(assemble::method(Method::Bye, &mut output[21..]).is_err());
}

#[test]
fn every_fixed_method_comes_back_from_its_text() {
    let fixed = [
        (Method::Register, "REGISTER"),
        (Method::Invite, "INVITE"),
        (Method::Ack, "ACK"),
        (Method::Cancel, "CANCEL"),
        (Method::Bye, "BYE"),
        (Method::Options, "OPTIONS"),
    ];
    for (m, text) in fixed.iter() {
        let mut output = [0u8; 8];
        let n = assemble::method(*m, &mut output).unwrap();
        assert_eq!(&output[..n], text.as_bytes());
        assert_eq!(parse::method(&output[..n]), Ok(("".as_bytes(), *m)));
    }
}

#[test]
fn the_first_name_that_matches_decides() {
    assert_eq!(parse::method("REGISTERED ".as_bytes()), Ok(("ED ".as_bytes(), Method::Register)));
    assert_eq!(parse::method("R".as_bytes()), Err(Incomplete(8)));
    assert_eq!(parse::method("OPTION".as_bytes()), Err(Incomplete(7)));
    assert_eq!(parse::method("OPTIOX ".as_bytes()), Ok((" ".as_bytes(), Method::Token("OPTIOX".as_bytes()))));
    assert_eq!(parse::method("REFER".as_bytes()), Err(Incomplete(1)));
    assert_eq!(parse::method(" x".as_bytes()), Ok((" x".as_bytes(), Method::Token("".as_bytes()))));
    assert_eq!(parse::method("".as_bytes()), Err(Incomplete(8)));
}

#[test]
fn a_buffer_too_small_for_a_method_is_an_error() {
    let mut output = [b'-'; 6];
    let e = assemble::method(Method::Options, &mut output).unwrap_err();
    assert_eq!(e.kind(), std::io::ErrorKind::WriteZero);
    assert_eq!(&output, b"OPTION");

    let mut output = [b'-'; 7];
    assert_eq!(assemble::method(Method::Options, &mut output).unwrap(), 7);
    assert_eq!(&output, b"OPTIONS");

    let mut output = [b'-'; 4];
    assert!(assemble::method(Method::Token(b"REFER"), &mut output).is_err());
    assert_eq!(&output, b"REFE");
    assert_eq!(assemble::method(Method::Token(b""), &mut []).unwrap(), 0);
    assert!(assemble::method(Method::Ack, &mut []).is_err());
}
