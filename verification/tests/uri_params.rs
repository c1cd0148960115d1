use rusip::msg::abnf::host::Host;
use rusip::msg::abnf::outcome::ErrorKind::{Alt, Digit, Tag, Verify};
use rusip::msg::abnf::outcome::Failure::{CapacityExhausted, Error, Incomplete};
use rusip::msg::abnf::uri_params::{
    maddr_param, method_param, other_param, param_unreserved, paramchar, pname, pvalue,
    transport_param, ttl_param, uri_parameter, uri_parameters, user_param, Transport, UriParam,
    User,
};
use rusip::msg::method::Method;

#[test]
fn uri_parameters_test() {
    let mut domains = ["".as_bytes(); 100];
    let mut params = [UriParam::Lr; 100];

    assert_eq!(
        uri_parameters(
            ";transport=udp;method=INVITE;ttl=212;maddr=alib.ru;lr;user=phone;ooo=999;q asdf".as_bytes(),
            &mut domains,
            &mut params
        ),
        Ok((" asdf".as_bytes(), 8))
    );

    assert_eq!(params[0], UriParam::Transport(Transport::UDP));
    assert_eq!(params[1], UriParam::Method(Method::Invite));
    assert_eq!(params[2], UriParam::Ttl(212));
    assert_eq!(params[3], UriParam::Maddr(Host::Hostname("ru".as_bytes(), 1)));
    assert_eq!(domains[0], "alib".as_bytes());
    assert_eq!(params[4], UriParam::Lr);
    assert_eq!(params[5], UriParam::User(User::Phone));
    assert_eq!(params[6], UriParam::Other("ooo".as_bytes(), Some("999".as_bytes())));
    assert_eq!(params[7], UriParam::Other("q".as_bytes(), None));
}

#[test]
fn a_list_of_parameters_from_end_to_end() {
    let mut domains = ["".as_bytes(); 4];
    let mut params = [UriParam::Ttl(0); 4];
    assert_eq!(
        uri_parameters(";transport=udp;ttl=212;lr".as_bytes(), &mut domains, &mut params),
        Ok(("".as_bytes(), 3))
    );
    assert_eq!(
        params,
        [UriParam::Transport(Transport::UDP), UriParam::Ttl(212), UriParam::Lr, UriParam::Ttl(0)]
    );
}

#[test]
fn a_full_array_of_parameters_tells_how_many_it_took() {
    let mut domains = ["".as_bytes(); 4];
    let mut params = [UriParam::Ttl(0); 2];
    assert_eq!(
        uri_parameters(";transport=udp;ttl=212;lr".as_bytes(), &mut domains, &mut params),
        Err(CapacityExhausted(2))
    );
    assert_eq!(params, [UriParam::Transport(Transport::UDP), UriParam::Ttl(212)]);

    let mut none: [UriParam; 0] = [];
    assert_eq!(uri_parameters(";lr".as_bytes(), &mut domains, &mut none), Err(CapacityExhausted(0)));
    assert_eq!(uri_parameters("lr".as_bytes(), &mut domains, &mut none), Ok(("lr".as_bytes(), 0)));
    assert_eq!(uri_parameters("".as_bytes(), &mut domains, &mut none), Ok(("".as_bytes(), 0)));
}

#[test]
fn the_list_ends_where_no_whole_parameter_follows() {
    let mut domains = ["".as_bytes(); 4];
    let mut params = [UriParam::Ttl(0); 4];
    assert_eq!(
        uri_parameters(";lr;?x".as_bytes(), &mut domains, &mut params),
        Ok((";?x".as_bytes(), 1))
    );
    assert_eq!(
        uri_parameters(";lr;ttl=256;lr".as_bytes(), &mut domains, &mut params),
        Ok((";ttl=256;lr".as_bytes(), 1))
    );
    assert_eq!(uri_parameters(";lr;".as_bytes(), &mut domains, &mut params), Ok((";".as_bytes(), 1)));
    assert_eq!(uri_parameters(";foo".as_bytes(), &mut domains, &mut params), Ok((";foo".as_bytes(), 0)));
    assert_eq!(
        uri_parameters(";foo ".as_bytes(), &mut domains, &mut params),
        Ok((" ".as_bytes(), 1))
    );
    assert_eq!(params[0], UriParam::Other("foo".as_bytes(), None));
}

#[test]
fn each_address_overwrites_the_labels_of_the_one_before() {
    let mut domains = ["-".as_bytes(); 3];
    let mut params = [UriParam::Lr; 4];
    assert_eq!(
        uri_parameters(";maddr=a.b.c;maddr=x.y ".as_bytes(), &mut domains, &mut params),
        Ok((" ".as_bytes(), 2))
    );
    assert_eq!(params[0], UriParam::Maddr(Host::Hostname("c".as_bytes(), 2)));
    assert_eq!(params[1], UriParam::Maddr(Host::Hostname("y".as_bytes(), 1)));
    assert_eq!(domains, ["x".as_bytes(), "b".as_bytes(), "-".as_bytes()]);

    let mut domains = ["-".as_bytes(); 1];
    assert_eq!(
        uri_parameters(";lr;maddr=a.b.c;lr".as_bytes(), &mut domains, &mut params),
        Ok((";maddr=a.b.c;lr".as_bytes(), 1))
    );
    assert_eq!(domains, ["a".as_bytes()]);
}

#[test]
fn one_parameter_of_each_kind() {
    let mut domains = ["".as_bytes(); 4];
    assert_eq!(
        uri_parameter("transport=tcp;".as_bytes(), &mut domains),
        Ok((";".as_bytes(), UriParam::Transport(Transport::TCP)))
    );
    assert_eq!(
        uri_parameter("user=ip;".as_bytes(), &mut domains),
        Ok((";".as_bytes(), UriParam::User(User::Ip)))
    );
    assert_eq!(
        uri_parameter("method=BYE".as_bytes(), &mut domains),
        Ok(("".as_bytes(), UriParam::Method(Method::Bye)))
    );
    assert_eq!(uri_parameter("ttl=0".as_bytes(), &mut domains), Ok(("".as_bytes(), UriParam::Ttl(0))));
    assert_eq!(
        uri_parameter("maddr=10.0.0.1;".as_bytes(), &mut domains),
        Ok((";".as_bytes(), UriParam::Maddr(Host::Ipv4([10, 0, 0, 1]))))
    );
    assert_eq!(
        uri_parameter("maddr=[::1];".as_bytes(), &mut domains),
        Ok((";".as_bytes(), UriParam::Maddr(Host::Ipv6([0, 0, 0, 0, 0, 0, 0, 1]))))
    );
    assert_eq!(uri_parameter("lr".as_bytes(), &mut domains), Ok(("".as_bytes(), UriParam::Lr)));
    assert_eq!(uri_parameter("lrx=1;".as_bytes(), &mut domains), Ok(("x=1;".as_bytes(), UriParam::Lr)));
    assert_eq!(
        uri_parameter("a=b;".as_bytes(), &mut domains),
        Ok((";".as_bytes(), UriParam::Other("a".as_bytes(), Some("b".as_bytes()))))
    );
    assert_eq!(uri_parameter("?".as_bytes(), &mut domains), Err(Error("?".as_bytes(), Alt)));
    assert_eq!(uri_parameter("".as_bytes(), &mut domains), Err(Incomplete(10)));
    assert_eq!(uri_parameter("l".as_bytes(), &mut domains), Err(Incomplete(2)));
    assert_eq!(uri_parameter("m".as_bytes(), &mut domains), Err(Incomplete(7)));
    assert_eq!(uri_parameter("ma".as_bytes(), &mut domains), Err(Incomplete(6)));
    assert_eq!(uri_parameter("ttl=256".as_bytes(), &mut domains), Err(Error("6".as_bytes(), Digit)));
    assert_eq!(uri_parameter("ttl=x".as_bytes(), &mut domains), Err(Error("x".as_bytes(), Verify)));
    assert_eq!(uri_parameter("transport=;".as_bytes(), &mut domains), Err(Error(";".as_bytes(), Alt)));
    assert_eq!(uri_parameter("maddr=-".as_bytes(), &mut domains), Err(Error("-".as_bytes(), Alt)));
    assert_eq!(
        uri_parameter("tt=1;".as_bytes(), &mut domains),
        Ok((";".as_bytes(), UriParam::Other("tt".as_bytes(), Some("1".as_bytes()))))
    );
    assert_eq!(uri_parameter("maddr=a.b".as_bytes(), &mut []), Err(CapacityExhausted(0)));
}

#[test]
fn the_rules_of_the_named_parameters() {
    assert_eq!(transport_param("transport=udp".as_bytes()), Ok(("".as_bytes(), Transport::UDP)));
    assert_eq!(transport_param("transport=sctp ".as_bytes()), Ok((" ".as_bytes(), Transport::SCTP)));
    assert_eq!(transport_param("transport=tls;".as_bytes()), Ok((";".as_bytes(), Transport::TLS)));
    assert_eq!(
        transport_param("transport=ws;".as_bytes()),
        Ok((";".as_bytes(), Transport::Other("ws".as_bytes())))
    );
    assert_eq!(transport_param("transport=udpx;".as_bytes()), Ok(("x;".as_bytes(), Transport::UDP)));
    assert_eq!(transport_param("transport=t".as_bytes()), Err(Incomplete(3)));
    assert_eq!(transport_param("transport=ws".as_bytes()), Err(Incomplete(1)));
    assert_eq!(transport_param("transport=;".as_bytes()), Err(Error(";".as_bytes(), Alt)));
    assert_eq!(transport_param("transpor".as_bytes()), Err(Incomplete(10)));
    assert_eq!(transport_param("transit=".as_bytes()), Err(Error("transit=".as_bytes(), Tag)));
    assert_eq!(user_param("user=phone".as_bytes()), Ok(("".as_bytes(), User::Phone)));
    assert_eq!(user_param("user=dialstring;".as_bytes()), Ok((";".as_bytes(), User::Other("dialstring".as_bytes()))));
    assert_eq!(user_param("user=i".as_bytes()), Err(Incomplete(2)));
    assert_eq!(ttl_param("ttl=212;".as_bytes()), Ok((";".as_bytes(), 212)));
    assert_eq!(ttl_param("ttl=256".as_bytes()), Err(Error("6".as_bytes(), Digit)));
    assert_eq!(ttl_param("ttl=".as_bytes()), Err(Incomplete(1)));
    assert_eq!(ttl_param("ttl=x".as_bytes()), Err(Error("x".as_bytes(), Verify)));
    assert_eq!(method_param("method=INVITE".as_bytes()), Ok(("".as_bytes(), Method::Invite)));
    assert_eq!(method_param("method=IN".as_bytes()), Err(Incomplete(6)));
    let mut domains = ["".as_bytes(); 4];
    assert_eq!(
        maddr_param("maddr=a.example.com ".as_bytes(), &mut domains),
        Ok((" ".as_bytes(), Host::Hostname("com".as_bytes(), 2)))
    );
    assert_eq!(&domains[..2], ["a".as_bytes(), "example".as_bytes()]);
    let mut domains = ["-".as_bytes(); 2];
    assert_eq!(maddr_param("madam=".as_bytes(), &mut domains), Err(Error("madam=".as_bytes(), Tag)));
    assert_eq!(domains, ["-".as_bytes(), "-".as_bytes()]);
}

#[test]
fn names_and_values_of_other_parameters() {
    assert_eq!(param_unreserved("[".as_bytes()), Ok(("".as_bytes(), b'[')));
    assert_eq!(param_unreserved("=".as_bytes()), Err(Error("=".as_bytes(), Verify)));
    assert_eq!(paramchar("%41".as_bytes()), Ok(("".as_bytes(), b'A')));
    assert_eq!(paramchar("a".as_bytes()), Ok(("".as_bytes(), b'a')));
    assert_eq!(paramchar("#".as_bytes()), Err(Error("#".as_bytes(), Alt)));
    assert_eq!(pname("abc".as_bytes()), Ok(("".as_bytes(), "abc".as_bytes())));
    assert_eq!(pname("a%4".as_bytes()), Ok(("%4".as_bytes(), "a".as_bytes())));
    assert_eq!(pname("%".as_bytes()), Err(Incomplete(1)));
    assert_eq!(pname("%zz".as_bytes()), Err(Error("%zz".as_bytes(), Alt)));
    assert_eq!(pname("".as_bytes()), Err(Incomplete(1)));
    assert_eq!(pvalue("x%20y;".as_bytes()), Ok((";".as_bytes(), "x%20y".as_bytes())));
    assert_eq!(other_param("abc".as_bytes()), Err(Incomplete(1)));
    assert_eq!(other_param("abc=".as_bytes()), Err(Incomplete(1)));
    assert_eq!(other_param("abc;".as_bytes()), Ok((";".as_bytes(), ("abc".as_bytes(), None))));
    assert_eq!(other_param("abc=;".as_bytes()), Ok(("=;".as_bytes(), ("abc".as_bytes(), None))));
    assert_eq!(
        other_param("abc=d;".as_bytes()),
        Ok((";".as_bytes(), ("abc".as_bytes(), Some("d".as_bytes()))))
    );
    assert_eq!(other_param("=".as_bytes()), Err(Error("=".as_bytes(), Alt)));
}
