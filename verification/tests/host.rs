use rusip::msg::abnf::host::{domainlabel, host, hostname, hostport, port, toplabel, Host};
use rusip::msg::abnf::outcome::ErrorKind::{Alt, Char, Complete, Digit, Verify};
use rusip::msg::abnf::outcome::Failure::{CapacityExhausted, Error, Incomplete};

#[test]
fn domainlabel_test() {
    assert_eq!(domainlabel("a".as_bytes()), Ok(("".as_bytes(), "a".as_bytes())));
    assert_eq!(domainlabel("1".as_bytes()), Ok(("".as_bytes(), "1".as_bytes())));
    assert_eq!(domainlabel("aa".as_bytes()), Ok(("".as_bytes(), "aa".as_bytes())));
    assert_eq!(domainlabel("a1".as_bytes()), Ok(("".as_bytes(), "a1".as_bytes())));
    assert_eq!(domainlabel("1a".as_bytes()), Ok(("".as_bytes(), "1a".as_bytes())));
    assert_eq!(domainlabel("aaa".as_bytes()), Ok(("".as_bytes(), "aaa".as_bytes())));
    assert_eq!(domainlabel("a-9".as_bytes()), Ok(("".as_bytes(), "a-9".as_bytes())));
    assert_eq!(domainlabel("4--a".as_bytes()), Ok(("".as_bytes(), "4--a".as_bytes())));
    assert_eq!(domainlabel("a-B-a".as_bytes()), Ok(("".as_bytes(), "a-B-a".as_bytes())));
    assert_eq!(domainlabel("4-".as_bytes()), Ok(("-".as_bytes(), "4".as_bytes())));
    assert_eq!(domainlabel("s-".as_bytes()), Ok(("-".as_bytes(), "s".as_bytes())));
    assert_eq!(domainlabel("-a".as_bytes()), Err(Error("-a".as_bytes(), Verify)));
    assert_eq!(domainlabel("-3".as_bytes()), Err(Error("-3".as_bytes(), Verify)));
}

#[test]
fn toplabel_test() {
    assert_eq!(toplabel("a".as_bytes()), Ok(("".as_bytes(), "a".as_bytes())));
    assert_eq!(toplabel("a-".as_bytes()), Ok(("-".as_bytes(), "a".as_bytes())));
    assert_eq!(toplabel("a-3".as_bytes()), Ok(("".as_bytes(), "a-3".as_bytes())));
    assert_eq!(toplabel("3".as_bytes()), Err(Error("3".as_bytes(), Verify)));
}

#[test]
fn a_label_never_ends_in_a_dash() {
    assert_eq!(domainlabel("a--.b".as_bytes()), Ok(("--.b".as_bytes(), "a".as_bytes())));
    assert_eq!(domainlabel("a-b--- ".as_bytes()), Ok(("--- ".as_bytes(), "a-b".as_bytes())));
    assert_eq!(domainlabel("".as_bytes()), Err(Incomplete(1)));
    assert_eq!(toplabel("".as_bytes()), Err(Incomplete(1)));
}

fn top_alone(input: &str, top: &str, left: &str) {
    let mut buf = ["".as_bytes(); 10];
    assert_eq!(hostname(input.as_bytes(), &mut buf), Ok((left.as_bytes(), (top.as_bytes(), 0))));
}

fn top_and_domains(input: &str, top: &str, domains: &[&str], left: &str) {
    let mut buf = ["".as_bytes(); 100];
    assert_eq!(
        hostname(input.as_bytes(), &mut buf),
        Ok((left.as_bytes(), (top.as_bytes(), domains.len())))
    );
    Iterator::zip(buf.iter(), domains.iter()).for_each(|(b, d)| {
        assert_eq!(*b, d.as_bytes());
    });
}

#[test]
fn hostname_test() {
    top_alone("a", "a", "");
    top_alone("a.", "a", "");
    top_and_domains("a.a.", "a", &["a"], "");
    top_and_domains("a.a", "a", &["a"], "");
    top_and_domains("1.a", "a", &["1"], "");
    top_and_domains("1.a.", "a", &["1"], "");
    top_alone("a.1", "a", "1");
    top_alone("a.1.", "a", "1.");
    top_and_domains("3.a.4.b-d.1.", "b-d", &["3", "a", "4"], "1.");
    assert_eq!(hostname("3.a.4.b-d.1.".as_bytes(), &mut []), Err(CapacityExhausted(0)));
    let mut buf = ["".as_bytes(); 10];
    assert_eq!(hostname("4.4.".as_bytes(), &mut buf), Err(Error("4.4.".as_bytes(), Verify)));

    top_and_domains("3450.ns-45.goo.gov a;lkds", "gov", &["3450", "ns-45", "goo"], " a;lkds");
}

#[test]
fn a_label_that_is_no_top_label_is_left_behind() {
    let mut buf = ["".as_bytes(); 4];
    assert_eq!(hostname("a.1".as_bytes(), &mut buf), Ok(("1".as_bytes(), ("a".as_bytes(), 0))));
    let mut buf = ["".as_bytes(); 4];
    assert_eq!(hostname("a.1.".as_bytes(), &mut buf), Ok(("1.".as_bytes(), ("a".as_bytes(), 0))));
    let mut buf = ["".as_bytes(); 4];
    assert_eq!(hostname("a.b".as_bytes(), &mut buf), Ok(("".as_bytes(), ("b".as_bytes(), 1))));
    assert_eq!(buf[0], "a".as_bytes());
}

#[test]
fn every_label_of_the_chain_takes_a_place() {
    let mut buf = ["-".as_bytes(); 4];
    assert_eq!(hostname("x.y.1.2.".as_bytes(), &mut buf), Ok(("1.2.".as_bytes(), ("y".as_bytes(), 1))));
    assert_eq!(buf, ["x".as_bytes(), "y".as_bytes(), "1".as_bytes(), "2".as_bytes()]);

    let mut buf = ["-".as_bytes(); 3];
    assert_eq!(hostname("x.y.1.2.".as_bytes(), &mut buf), Err(CapacityExhausted(3)));
    assert_eq!(buf, ["x".as_bytes(), "y".as_bytes(), "1".as_bytes()]);

    let mut buf = ["-".as_bytes(); 3];
    assert_eq!(hostname("x.yz".as_bytes(), &mut buf), Ok(("".as_bytes(), ("yz".as_bytes(), 1))));
    assert_eq!(buf, ["x".as_bytes(), "-".as_bytes(), "-".as_bytes()]);

    let mut buf = ["-".as_bytes(); 3];
    assert_eq!(hostname("".as_bytes(), &mut buf), Err(Error("".as_bytes(), Verify)));
    assert_eq!(hostname("-a".as_bytes(), &mut buf), Err(Error("-a".as_bytes(), Verify)));
}

#[test]
fn host_test() {
    let mut buf = ["".as_bytes(); 10];
    assert_eq!(
        host("127.0.0.1".as_bytes(), &mut buf),
        Ok(("".as_bytes(), Host::Ipv4([127, 0, 0, 1])))
    );
    let mut buf = ["".as_bytes(); 10];
    assert_eq!(
        host("ringcentral.com".as_bytes(), &mut buf),
        Ok(("".as_bytes(), Host::Hostname("com".as_bytes(), 1)))
    );
    let mut buf = ["".as_bytes(); 10];
    assert_eq!(
        host("[fa:2001:db8::9:01]".as_bytes(), &mut buf),
        Ok(("".as_bytes(), Host::Ipv6([0xfa, 0x2001, 0xdb8, 0x0, 0x0, 0x0, 0x9, 0x1])))
    );
}

#[test]
fn a_host_that_is_none_of_the_three() {
    let mut buf = ["".as_bytes(); 10];
    assert_eq!(host("-".as_bytes(), &mut buf), Err(Error("-".as_bytes(), Alt)));
    assert_eq!(host("127.0.0.1".as_bytes(), &mut []), Err(CapacityExhausted(0)));
    assert_eq!(host("1.2.3.256".as_bytes(), &mut buf), Err(Error("6".as_bytes(), Digit)));
    assert_eq!(host("1.2.3x".as_bytes(), &mut buf), Err(Error("x".as_bytes(), Char)));
    assert_eq!(host("[zz]".as_bytes(), &mut buf), Err(Error("zz]".as_bytes(), Alt)));
    assert_eq!(host("[::1".as_bytes(), &mut buf), Err(Incomplete(1)));
}

#[test]
fn port_test() {
    assert_eq!(port("1".as_bytes()), Ok(("".as_bytes(), 1)));
    assert_eq!(port("1a".as_bytes()), Ok(("a".as_bytes(), 1)));
    assert_eq!(port("5070".as_bytes()), Ok(("".as_bytes(), 5070)));
    assert_eq!(port("20101- ".as_bytes()), Ok(("- ".as_bytes(), 20101)));

    assert_eq!(port("".as_bytes()), Err(Error("".as_bytes(), Complete)));
    assert_eq!(port("0".as_bytes()), Err(Error("".as_bytes(), Digit)));
    assert_eq!(port("a".as_bytes()), Err(Error("a".as_bytes(), Verify)));
    assert_eq!(port("99999".as_bytes()), Err(Error("9".as_bytes(), Digit)));
}

#[test]
fn a_port_is_from_1_to_65535_in_up_to_five_digits() {
    assert_eq!(port("65535".as_bytes()), Ok(("".as_bytes(), 65535)));
    assert_eq!(port("65536".as_bytes()), Err(Error("6".as_bytes(), Digit)));
    assert_eq!(port("655350".as_bytes()), Ok(("0".as_bytes(), 65535)));
    assert_eq!(port("080".as_bytes()), Ok(("".as_bytes(), 80)));
    assert_eq!(port("00".as_bytes()), Err(Error("".as_bytes(), Digit)));
    assert_eq!(port("00000".as_bytes()), Err(Error("".as_bytes(), Digit)));
    assert_eq!(port("0:".as_bytes()), Err(Error(":".as_bytes(), Digit)));
}

#[test]
fn hostport_test() {
    let mut buf = ["".as_bytes(); 10];
    assert_eq!(
        hostport("127.0.0.1".as_bytes(), &mut buf),
        Ok(("".as_bytes(), (Host::Ipv4([127, 0, 0, 1]), None)))
    );
    let mut buf = ["".as_bytes(); 10];
    assert_eq!(
        hostport("127.0.0.1:2222".as_bytes(), &mut buf),
        Ok(("".as_bytes(), (Host::Ipv4([127, 0, 0, 1]), Some(2222))))
    );
    let mut buf = ["".as_bytes(); 10];
    assert_eq!(
        hostport("[2001:db8::192.0.2.1]".as_bytes(), &mut buf),
        Ok(("".as_bytes(), (Host::Ipv6([0x2001, 0xdb8, 0x0, 0x0, 0x0, 0x0, 0xc000, 0x201]), None)))
    );
    let mut buf = ["".as_bytes(); 10];
    assert_eq!(
        hostport("[2001:db8::10]:5070 ".as_bytes(), &mut buf),
        Ok((" ".as_bytes(), (Host::Ipv6([0x2001, 0xdb8, 0x0, 0x0, 0x0, 0x0, 0x0, 0x10]), Some(5070))))
    );
    let mut buf = ["".as_bytes(); 10];
    assert_eq!(
        hostport("www.yandex.ru".as_bytes(), &mut buf),
        Ok(("".as_bytes(), (Host::Hostname("ru".as_bytes(), 2), None)))
    );
    let mut buf = ["".as_bytes(); 10];
    assert_eq!(
        hostport("yandex.ru:22".as_bytes(), &mut buf),
        Ok(("".as_bytes(), (Host::Hostname("ru".as_bytes(), 1), Some(22))))
    );
}

#[test]
fn a_name_with_its_port_from_end_to_end() {
    let mut buf = ["".as_bytes(); 10];
    assert_eq!(
        hostport("www.yandex.ru:22".as_bytes(), &mut buf),
        Ok(("".as_bytes(), (Host::Hostname("ru".as_bytes(), 2), Some(22))))
    );
    assert_eq!(buf[0], "www".as_bytes());
    assert_eq!(buf[1], "yandex".as_bytes());

    let mut buf = ["".as_bytes(); 10];
    assert_eq!(
        hostport("yandex.ru:22".as_bytes(), &mut buf),
        Ok(("".as_bytes(), (Host::Hostname("ru".as_bytes(), 1), Some(22))))
    );
    assert_eq!(buf[0], "yandex".as_bytes());
}

#[test]
fn a_colon_commits_to_a_port() {
    let mut buf = ["".as_bytes(); 10];
    assert_eq!(hostport("a.b:".as_bytes(), &mut buf), Err(Error("".as_bytes(), Complete)));
    assert_eq!(hostport("a.b:0".as_bytes(), &mut buf), Err(Error("".as_bytes(), Digit)));
    assert_eq!(hostport("a.b:x".as_bytes(), &mut buf), Err(Error("x".as_bytes(), Verify)));
    assert_eq!(
        hostport("a.b;".as_bytes(), &mut buf),
        Ok((";".as_bytes(), (Host::Hostname("b".as_bytes(), 1), None)))
    );
}
