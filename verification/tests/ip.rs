use rusip::msg::abnf::ip::{ipv4address, ipv6address, ipv6reference, ls32, Ls32};
use rusip::msg::abnf::outcome::ErrorKind::{Alt, Char, Digit};
use rusip::msg::abnf::outcome::Failure::{Error, Incomplete};

#[test]
fn ipv4_parse_test() {
    assert_eq!(ipv4address("1.1.1.1".as_bytes()), Ok(("".as_bytes(), [1, 1, 1, 1])));
    assert_eq!(ipv4address("1.1.1.13".as_bytes()), Ok(("".as_bytes(), [1, 1, 1, 13])));
    assert_eq!(ipv4address("255.255.255.255".as_bytes()), Ok(("".as_bytes(), [255, 255, 255, 255])));
    assert_eq!(ipv4address("255.255.255.256".as_bytes()), Err(Error("6".as_bytes(), Digit)));

    assert_eq!(ipv4address("2".as_bytes()), Err(Incomplete(1)));
    assert_eq!(ipv4address("22".as_bytes()), Err(Incomplete(1)));
    assert_eq!(ipv4address("222".as_bytes()), Err(Incomplete(1)));
    assert_eq!(ipv4address("222.".as_bytes()), Err(Incomplete(1)));
    assert_eq!(ipv4address("222.1".as_bytes()), Err(Incomplete(1)));
    assert_eq!(ipv4address("222.13".as_bytes()), Err(Incomplete(1)));
    assert_eq!(ipv4address("222.233".as_bytes()), Err(Incomplete(1)));
    assert_eq!(ipv4address("222.121.".as_bytes()), Err(Incomplete(1)));
    assert_eq!(ipv4address("222.121.4".as_bytes()), Err(Incomplete(1)));
    assert_eq!(ipv4address("222.121.43".as_bytes()), Err(Incomplete(1)));
    assert_eq!(ipv4address("222.121.4.".as_bytes()), Err(Incomplete(1)));

    assert_eq!(ipv4address("222.23.2.2".as_bytes()), Ok(("".as_bytes(), [222, 23, 2, 2])));

    assert_eq!(ipv4address("2345.2.2.3".as_bytes()), Err(Error("5.2.2.3".as_bytes(), Char)));
    assert_eq!(ipv4address("127.0.0.1098".as_bytes()), Ok(("8".as_bytes(), [127, 0, 0, 109])));
}

fn reference_makes(ip: &str, groups: [u16; 8]) {
    assert_eq!(ipv6reference(format!("[{}]", ip).as_bytes()), Ok(("".as_bytes(), groups)));
}

#[test]
fn ipv6() {
    reference_makes("::ffff:192.0.2.10", [0x0, 0x0, 0x0, 0x0, 0x0, 0xffff, 0xc000, 0x20a]);
    reference_makes("::ffff:c000:280", [0x0, 0x0, 0x0, 0x0, 0x0, 0xffff, 0xc000, 0x280]);
    reference_makes("2001:db8::9:1", [0x2001, 0xdb8, 0x0, 0x0, 0x0, 0x0, 0x9, 0x1]);
    reference_makes("2001:db8::9:01", [0x2001, 0xdb8, 0x0, 0x0, 0x0, 0x0, 0x9, 0x1]);
    reference_makes("fa:2001:db8::9:01", [0xfa, 0x2001, 0xdb8, 0x0, 0x0, 0x0, 0x9, 0x1]);
    reference_makes("34:fa:2001:db8::9:01", [0x34, 0xfa, 0x2001, 0xdb8, 0x0, 0x0, 0x9, 0x1]);
    reference_makes("34:fa:2001:db8::127.0.0.1", [0x34, 0xfa, 0x2001, 0xdb8, 0x0, 0x0, 0x7f00, 0x1]);
    reference_makes("0:0:0:0:0:FFFF:129.144.52.38", [0x0, 0x0, 0x0, 0x0, 0x0, 0xffff, 0x8190, 0x3426]);
    reference_makes("2001:db8::10:5070", [0x2001, 0xdb8, 0x0, 0x0, 0x0, 0x0, 0x10, 0x5070]);

    assert_eq!(ipv6reference("[2001:db8:::192.0.2.1]".as_bytes()), Err(Error(":192.0.2.1]".as_bytes(), Char)));
}

#[test]
fn every_shape_of_an_ipv6_address() {
    reference_makes("1:2:3:4:5:6:7:8", [0x1, 0x2, 0x3, 0x4, 0x5, 0x6, 0x7, 0x8]);
    reference_makes("1:2:3:4:5:6:1.2.3.4", [0x1, 0x2, 0x3, 0x4, 0x5, 0x6, 0x102, 0x304]);
    reference_makes("::2:3:4:5:6:7:8", [0x0, 0x2, 0x3, 0x4, 0x5, 0x6, 0x7, 0x8]);
    reference_makes("::2:3:4:5:6:1.2.3.4", [0x0, 0x2, 0x3, 0x4, 0x5, 0x6, 0x102, 0x304]);
    reference_makes("1::3:4:5:6:7:8", [0x1, 0x0, 0x3, 0x4, 0x5, 0x6, 0x7, 0x8]);
    reference_makes("::3:4:5:6:7:8", [0x0, 0x0, 0x3, 0x4, 0x5, 0x6, 0x7, 0x8]);
    reference_makes("1:2::4:5:6:7:8", [0x1, 0x2, 0x0, 0x4, 0x5, 0x6, 0x7, 0x8]);
    reference_makes("1::4:5:6:7:8", [0x1, 0x0, 0x0, 0x4, 0x5, 0x6, 0x7, 0x8]);
    reference_makes("1:2:3::5:6:7:8", [0x1, 0x2, 0x3, 0x0, 0x5, 0x6, 0x7, 0x8]);
    reference_makes("1:2:3:4::6:7:8", [0x1, 0x2, 0x3, 0x4, 0x0, 0x6, 0x7, 0x8]);
    reference_makes("1:2:3:4:5::7:8", [0x1, 0x2, 0x3, 0x4, 0x5, 0x0, 0x7, 0x8]);
    reference_makes("1:2:3:4:5::1.2.3.4", [0x1, 0x2, 0x3, 0x4, 0x5, 0x0, 0x102, 0x304]);
    reference_makes("1:2:3:4:5:6::8", [0x1, 0x2, 0x3, 0x4, 0x5, 0x6, 0x0, 0x8]);
    reference_makes("1:2:3:4:5:6:7::", [0x1, 0x2, 0x3, 0x4, 0x5, 0x6, 0x7, 0x0]);
    reference_makes("::8", [0x0, 0x0, 0x0, 0x0, 0x0, 0x0, 0x0, 0x8]);
    reference_makes("::", [0x0, 0x0, 0x0, 0x0, 0x0, 0x0, 0x0, 0x0]);
    reference_makes("1::", [0x1, 0x0, 0x0, 0x0, 0x0, 0x0, 0x0, 0x0]);
    reference_makes("ffff:ffff:ffff:ffff:ffff:ffff:255.255.255.255", [0xffff, 0xffff, 0xffff, 0xffff, 0xffff, 0xffff, 0xffff, 0xffff]);
}

#[test]
fn equal_addresses_in_different_spellings() {
    let short = ipv6reference("[::1]".as_bytes());
    let long = ipv6reference("[0:0:0:0:0:0:0:1]".as_bytes());
    assert_eq!(short, Ok(("".as_bytes(), [0, 0, 0, 0, 0, 0, 0, 1])));
    assert_eq!(short, long);

    let embedded = ipv6reference("[0:0:0:0:0:FFFF:129.144.52.38]".as_bytes());
    let hex = ipv6reference("[0:0:0:0:0:FFFF:8190:3426]".as_bytes());
    assert_eq!(embedded, Ok(("".as_bytes(), [0, 0, 0, 0, 0, 0xffff, 0x8190, 0x3426])));
    assert_eq!(embedded, hex);
}

#[test]
fn an_address_that_may_go_on_waits() {
    assert_eq!(ipv6address("::1".as_bytes()), Err(Incomplete(1)));
    assert_eq!(ipv6address("1:2".as_bytes()), Err(Incomplete(1)));
    assert_eq!(ipv6address("".as_bytes()), Err(Incomplete(1)));
    assert_eq!(ipv6address("::1 ".as_bytes()), Ok((" ".as_bytes(), [0, 0, 0, 0, 0, 0, 0, 1])));
    assert_eq!(ipv6address("g".as_bytes()), Err(Error("g".as_bytes(), Alt)));
    assert_eq!(ipv6reference("::1]".as_bytes()), Err(Error("::1]".as_bytes(), Char)));
    assert_eq!(ipv6reference("[1:2:3:4:5:6:7:8:9]".as_bytes()), Err(Error(":9]".as_bytes(), Char)));
}

#[test]
fn low_bits_as_groups_or_as_octets() {
    assert_eq!(ls32("c000:280]".as_bytes()), Ok(("]".as_bytes(), Ls32::Hex(0xc000, 0x280))));
    assert_eq!(ls32("192.0.2.10]".as_bytes()), Ok(("]".as_bytes(), Ls32::V4([192, 0, 2, 10]))));
    assert_eq!(Ls32::Hex(1, 2).segments(), (1, 2));
    assert_eq!(Ls32::V4([192, 0, 2, 10]).segments(), (0xc000, 0x020a));
    assert_eq!(Ls32::V4([255, 255, 255, 255]).segments(), (0xffff, 0xffff));
    assert_eq!(ls32("x".as_bytes()), Err(Error("x".as_bytes(), Alt)));
}
