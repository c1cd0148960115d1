//! The parameters of a URI.

use vstd::prelude::*;
use crate::msg::abnf::{is_token, is_unreserved};
use crate::msg::abnf::ch::{
    count_elements, element, element_of, elements1, lemma_characters_within, token,
};
use crate::msg::abnf::digit::{dec_u8, lemma_digits_within, spec_dec_u8};
use crate::msg::abnf::host::{
    host, label_views, labels_after, labels_stored, lemma_host_within, lemma_labels_stored,
    spec_host, Host, HostView,
};
use crate::msg::abnf::outcome::{
    byte, byte_where, fails_as, is_tail, keyword, leading_count, lemma_bytes_within,
    lemma_keyword_within, lemma_leading_count_bounds, lemma_leading_count_reaches,
    lemma_leading_count_stops, lemma_skip_is_tail, lemma_within_tail, map_byte, run1, tag, the_byte,
    yields, ErrorKind, Failure, IResult, Parse,
};
use crate::msg::method::{Method, MethodView};
use crate::msg::method::parse::{lemma_method_within, method, spec_method};

verus! {

/// `param-unreserved = "[" / "]" / "/" / ":" / "&" / "+" / "$"`.
pub open spec fn spec_is_param_unreserved(i: u8) -> bool {
    i == '[' as u8 || i == ']' as u8 || i == '/' as u8 || i == ':' as u8 || i == '&' as u8 || i
        == '+' as u8 || i == '$' as u8
}

#[verifier::when_used_as_spec(spec_is_param_unreserved)]
pub fn is_param_unreserved(i: u8) -> (r: bool)
    ensures
        r == spec_is_param_unreserved(i),
{
    i == '[' as u8 || i == ']' as u8 || i == '/' as u8 || i == ':' as u8 || i == '&' as u8 || i
        == '+' as u8 || i == '$' as u8
}

/// The plain bytes of a parameter: `param-unreserved / unreserved`.
pub open spec fn spec_is_param_byte(i: u8) -> bool {
    is_param_unreserved(i) || is_unreserved(i)
}

#[verifier::when_used_as_spec(spec_is_param_byte)]
pub fn is_param_byte(i: u8) -> (r: bool)
    ensures
        r == spec_is_param_byte(i),
{
    is_param_unreserved(i) || is_unreserved(i)
}

/// One byte of `param-unreserved`.
pub fn param_unreserved<'a>(input: &'a [u8]) -> (r: IResult<'a, u8>)
    ensures
        yields(r, byte_where(input@, |i: u8| is_param_unreserved(i))),
{
    map_byte(input, is_param_unreserved, Ghost(|i: u8| is_param_unreserved(i)))
}

/// `paramchar = param-unreserved / unreserved / escaped`, as the byte that
/// it stands for.
pub open spec fn spec_paramchar(s: Seq<u8>) -> Parse<u8> {
    element(s, |i: u8| is_param_byte(i))
}

/// One character of a parameter.
pub fn paramchar<'a>(input: &'a [u8]) -> (r: IResult<'a, u8>)
    ensures
        yields(r, spec_paramchar(input@)),
{
    element_of(input, is_param_byte, Ghost(|i: u8| is_param_byte(i)))
}

/// `pname = 1*paramchar`.
pub open spec fn spec_pname(s: Seq<u8>) -> Parse<Seq<u8>> {
    elements1(s, |i: u8| is_param_byte(i))
}

/// `pvalue = 1*paramchar`.
pub open spec fn spec_pvalue(s: Seq<u8>) -> Parse<Seq<u8>> {
    spec_pname(s)
}

/// The name of a parameter.
pub fn pname<'a>(input: &'a [u8]) -> (r: IResult<'a, &'a [u8]>)
    ensures
        yields(r, spec_pname(input@)),
{
    let _ = paramchar(input)?;
    let n = count_elements(input, &is_param_byte, Ghost(|i: u8| is_param_byte(i)));
    Ok((&input[n..input.len()], &input[0..n]))
}

/// The value of a parameter.
pub fn pvalue<'a>(input: &'a [u8]) -> (r: IResult<'a, &'a [u8]>)
    ensures
        yields(r, spec_pvalue(input@)),
{
    pname(input)
}

/// `"=" pvalue`.
pub open spec fn spec_equals_pvalue(s: Seq<u8>) -> Parse<Seq<u8>> {
    the_byte(s, '=' as u8).and_then(|r: Seq<u8>, eq: u8| spec_pvalue(r))
}

fn equals_pvalue<'a>(input: &'a [u8]) -> (r: IResult<'a, &'a [u8]>)
    ensures
        yields(r, spec_equals_pvalue(input@)),
{
    let (rest, _) = byte(input, '=' as u8)?;
    pvalue(rest)
}

/// `other-param = pname [ "=" pvalue ]`. An equals sign that no value
/// follows is left in the remainder.
#[verifier::opaque]
pub open spec fn spec_other_param(s: Seq<u8>) -> Parse<(Seq<u8>, Option<Seq<u8>>)> {
    spec_pname(s).and_then(
        |r: Seq<u8>, name: Seq<u8>|
            spec_equals_pvalue(r).optional(r).map(|value: Option<Seq<u8>>| (name, value)),
    )
}

/// The executable form of a name and its optional value is the outcome `p`.
pub open spec fn yields_pair<'a>(
    r: IResult<'a, (&'a [u8], Option<&'a [u8]>)>,
    p: Parse<(Seq<u8>, Option<Seq<u8>>)>,
) -> bool {
    match p {
        Parse::Done(rest, value) => r matches Ok((i, o)) && i@ == rest && o.0@ == value.0
            && match value.1 {
            Some(v) => o.1 matches Some(found) && found@ == v,
            None => o.1 is None,
        },
        _ => crate::msg::abnf::outcome::fails_as(r, p),
    }
}

/// A parameter that the grammar does not name.
pub fn other_param<'a>(input: &'a [u8]) -> (r: IResult<'a, (&'a [u8], Option<&'a [u8]>)>)
    ensures
        yields_pair(r, spec_other_param(input@)),
{
    reveal(spec_other_param);
    let (rest, name) = pname(input)?;
    match equals_pvalue(rest) {
        Ok((after, value)) => Ok((after, (name, Some(value)))),
        Err(Failure::Error(_, _)) => Ok((rest, (name, None))),
        Err(e) => Err(e),
    }
}

/// `maddr=`.
pub open spec fn maddr_text() -> Seq<u8> {
    seq!['m' as u8, 'a' as u8, 'd' as u8, 'd' as u8, 'r' as u8, '=' as u8]
}

/// `ttl=`.
pub open spec fn ttl_text() -> Seq<u8> {
    seq!['t' as u8, 't' as u8, 'l' as u8, '=' as u8]
}

/// `method=`.
pub open spec fn method_text() -> Seq<u8> {
    seq!['m' as u8, 'e' as u8, 't' as u8, 'h' as u8, 'o' as u8, 'd' as u8, '=' as u8]
}

/// `user=`.
pub open spec fn user_text() -> Seq<u8> {
    seq!['u' as u8, 's' as u8, 'e' as u8, 'r' as u8, '=' as u8]
}

/// `transport=`.
pub open spec fn transport_text() -> Seq<u8> {
    seq![
        't' as u8,
        'r' as u8,
        'a' as u8,
        'n' as u8,
        's' as u8,
        'p' as u8,
        'o' as u8,
        'r' as u8,
        't' as u8,
        '=' as u8,
    ]
}

/// `maddr-param = "maddr=" host`, with room for `cap` domain labels.
#[verifier::opaque]
pub open spec fn spec_maddr_param(s: Seq<u8>, cap: nat) -> Parse<HostView> {
    keyword(s, maddr_text()).and_then(|r: Seq<u8>, t: Seq<u8>| spec_host(r, cap))
}

/// The labels in `domains` after the `maddr` rule ran on `s`: those of the
/// host behind the keyword, where the keyword stands there.
pub open spec fn maddr_stored(before: Seq<&[u8]>, after: Seq<&[u8]>, s: Seq<u8>) -> bool {
    match keyword(s, maddr_text()) {
        Parse::Done(r, _) => labels_stored(before, after, r),
        _ => after == before,
    }
}

/// The address that a request is sent to.
pub fn maddr_param<'a, 'b>(input: &'a [u8], domains: &'b mut [&'a [u8]]) -> (r: IResult<
    'a,
    Host<'a>,
>)
    ensures
        yields(r, spec_maddr_param(input@, old(domains)@.len())),
        maddr_stored(old(domains)@, final(domains)@, input@),
{
    reveal(spec_maddr_param);
    let text = ['m' as u8, 'a' as u8, 'd' as u8, 'd' as u8, 'r' as u8, '=' as u8];
    assert(text@ =~= maddr_text());
    let (rest, _) = tag(input, &text)?;
    host(rest, domains)
}

/// `ttl-param = "ttl=" ttl`, with `ttl = 1*3DIGIT` from 0 to 255.
#[verifier::opaque]
pub open spec fn spec_ttl_param(s: Seq<u8>) -> Parse<u8> {
    keyword(s, ttl_text()).and_then(|r: Seq<u8>, t: Seq<u8>| spec_dec_u8(r))
}

/// The time to live of a multicast request.
pub fn ttl_param<'a>(input: &'a [u8]) -> (r: IResult<'a, u8>)
    ensures
        yields(r, spec_ttl_param(input@)),
{
    reveal(spec_ttl_param);
    let text = ['t' as u8, 't' as u8, 'l' as u8, '=' as u8];
    assert(text@ =~= ttl_text());
    let (rest, _) = tag(input, &text)?;
    dec_u8(rest)
}

/// `method-param = "method=" Method`.
#[verifier::opaque]
pub open spec fn spec_method_param(s: Seq<u8>) -> Parse<MethodView> {
    keyword(s, method_text()).and_then(|r: Seq<u8>, t: Seq<u8>| spec_method(r))
}

/// The method of the request that the URI stands for.
pub fn method_param<'a>(input: &'a [u8]) -> (r: IResult<'a, Method<'a>>)
    ensures
        yields(r, spec_method_param(input@)),
{
    reveal(spec_method_param);
    let text = ['m' as u8, 'e' as u8, 't' as u8, 'h' as u8, 'o' as u8, 'd' as u8, '=' as u8];
    assert(text@ =~= method_text());
    let (rest, _) = tag(input, &text)?;
    method(rest)
}

/// What the user part of a URI holds.
#[derive(Debug, PartialEq, Eq, Clone, Copy)]
pub enum User<'a> {
    Phone,
    Ip,
    Other(&'a [u8]),
}

/// The value of a [`User`].
pub enum UserView {
    Phone,
    Ip,
    Other(Seq<u8>),
}

impl<'a> View for User<'a> {
    type V = UserView;

    open spec fn view(&self) -> UserView {
        match *self {
            User::Phone => UserView::Phone,
            User::Ip => UserView::Ip,
            User::Other(t) => UserView::Other(t@),
        }
    }
}

/// `user-param = "user=" ( "phone" / "ip" / other-user )`, the keywords in
/// this order and before a token.
#[verifier::opaque]
pub open spec fn spec_user_param(s: Seq<u8>) -> Parse<UserView> {
    keyword(s, user_text()).and_then(
        |r: Seq<u8>, t: Seq<u8>|
            keyword(r, seq!['p' as u8, 'h' as u8, 'o' as u8, 'n' as u8, 'e' as u8]).map(
                |t: Seq<u8>| UserView::Phone,
            ).or(keyword(r, seq!['i' as u8, 'p' as u8]).map(|t: Seq<u8>| UserView::Ip)).or(
                run1(r, |i: u8| is_token(i)).map(|t: Seq<u8>| UserView::Other(t)),
            ).or(Parse::Error(r, ErrorKind::Alt)),
    )
}

/// The kind of the user part.
pub fn user_param<'a>(input: &'a [u8]) -> (r: IResult<'a, User<'a>>)
    ensures
        yields(r, spec_user_param(input@)),
{
    reveal(spec_user_param);
    let text = ['u' as u8, 's' as u8, 'e' as u8, 'r' as u8, '=' as u8];
    assert(text@ =~= user_text());
    let (rest, _) = tag(input, &text)?;
    let phone = ['p' as u8, 'h' as u8, 'o' as u8, 'n' as u8, 'e' as u8];
    assert(phone@ =~= seq!['p' as u8, 'h' as u8, 'o' as u8, 'n' as u8, 'e' as u8]);
    match tag(rest, &phone) {
        Ok((after, _)) => {
            return Ok((after, User::Phone));
        },
        Err(Failure::Error(_, _)) => {},
        Err(e) => {
            return Err(e);
        },
    }
    let ip = ['i' as u8, 'p' as u8];
    assert(ip@ =~= seq!['i' as u8, 'p' as u8]);
    match tag(rest, &ip) {
        Ok((after, _)) => {
            return Ok((after, User::Ip));
        },
        Err(Failure::Error(_, _)) => {},
        Err(e) => {
            return Err(e);
        },
    }
    match token(rest) {
        Ok((after, t)) => Ok((after, User::Other(t))),
        Err(Failure::Error(_, _)) => Err(Failure::Error(rest, ErrorKind::Alt)),
        Err(e) => Err(e),
    }
}

/// The transport that a request is sent over.
#[derive(Debug, PartialEq, Eq, Clone, Copy)]
pub enum Transport<'a> {
    UDP,
    TCP,
    SCTP,
    TLS,
    Other(&'a [u8]),
}

/// The value of a [`Transport`].
pub enum TransportView {
    UDP,
    TCP,
    SCTP,
    TLS,
    Other(Seq<u8>),
}

impl<'a> View for Transport<'a> {
    type V = TransportView;

    open spec fn view(&self) -> TransportView {
        match *self {
            Transport::UDP => TransportView::UDP,
            Transport::TCP => TransportView::TCP,
            Transport::SCTP => TransportView::SCTP,
            Transport::TLS => TransportView::TLS,
            Transport::Other(t) => TransportView::Other(t@),
        }
    }
}

/// `transport-param = "transport=" ( "udp" / "tcp" / "sctp" / "tls" /
/// other-transport )`, the keywords in this order and before a token.
#[verifier::opaque]
pub open spec fn spec_transport_param(s: Seq<u8>) -> Parse<TransportView> {
    keyword(s, transport_text()).and_then(
        |r: Seq<u8>, t: Seq<u8>|
            keyword(r, seq!['u' as u8, 'd' as u8, 'p' as u8]).map(|t: Seq<u8>| TransportView::UDP).or(
                keyword(r, seq!['t' as u8, 'c' as u8, 'p' as u8]).map(
                    |t: Seq<u8>| TransportView::TCP,
                ),
            ).or(
                keyword(r, seq!['s' as u8, 'c' as u8, 't' as u8, 'p' as u8]).map(
                    |t: Seq<u8>| TransportView::SCTP,
                ),
            ).or(
                keyword(r, seq!['t' as u8, 'l' as u8, 's' as u8]).map(
                    |t: Seq<u8>| TransportView::TLS,
                ),
            ).or(run1(r, |i: u8| is_token(i)).map(|t: Seq<u8>| TransportView::Other(t))).or(
                Parse::Error(r, ErrorKind::Alt),
            ),
    )
}

/// The transport of a request.
pub fn transport_param<'a>(input: &'a [u8]) -> (r: IResult<'a, Transport<'a>>)
    ensures
        yields(r, spec_transport_param(input@)),
{
    reveal(spec_transport_param);
    let text = [
        't' as u8,
        'r' as u8,
        'a' as u8,
        'n' as u8,
        's' as u8,
        'p' as u8,
        'o' as u8,
        'r' as u8,
        't' as u8,
        '=' as u8,
    ];
    assert(text@ =~= transport_text());
    let (rest, _) = tag(input, &text)?;
    let udp = ['u' as u8, 'd' as u8, 'p' as u8];
    assert(udp@ =~= seq!['u' as u8, 'd' as u8, 'p' as u8]);
    match tag(rest, &udp) {
        Ok((after, _)) => {
            return Ok((after, Transport::UDP));
        },
        Err(Failure::Error(_, _)) => {},
        Err(e) => {
            return Err(e);
        },
    }
    let tcp = ['t' as u8, 'c' as u8, 'p' as u8];
    assert(tcp@ =~= seq!['t' as u8, 'c' as u8, 'p' as u8]);
    match tag(rest, &tcp) {
        Ok((after, _)) => {
            return Ok((after, Transport::TCP));
        },
        Err(Failure::Error(_, _)) => {},
        Err(e) => {
            return Err(e);
        },
    }
    let sctp = ['s' as u8, 'c' as u8, 't' as u8, 'p' as u8];
    assert(sctp@ =~= seq!['s' as u8, 'c' as u8, 't' as u8, 'p' as u8]);
    match tag(rest, &sctp) {
        Ok((after, _)) => {
            return Ok((after, Transport::SCTP));
        },
        Err(Failure::Error(_, _)) => {},
        Err(e) => {
            return Err(e);
        },
    }
    let tls = ['t' as u8, 'l' as u8, 's' as u8];
    assert(tls@ =~= seq!['t' as u8, 'l' as u8, 's' as u8]);
    match tag(rest, &tls) {
        Ok((after, _)) => {
            return Ok((after, Transport::TLS));
        },
        Err(Failure::Error(_, _)) => {},
        Err(e) => {
            return Err(e);
        },
    }
    match token(rest) {
        Ok((after, t)) => Ok((after, Transport::Other(t))),
        Err(Failure::Error(_, _)) => Err(Failure::Error(rest, ErrorKind::Alt)),
        Err(e) => Err(e),
    }
}

/// A parameter of a URI.
#[derive(Debug, PartialEq, Eq, Clone, Copy)]
pub enum UriParam<'a> {
    Transport(Transport<'a>),
    User(User<'a>),
    Method(Method<'a>),
    Ttl(u8),
    Maddr(Host<'a>),
    Lr,
    Other(&'a [u8], Option<&'a [u8]>),
}

/// The value of a [`UriParam`].
pub enum UriParamView {
    Transport(TransportView),
    User(UserView),
    Method(MethodView),
    Ttl(u8),
    Maddr(HostView),
    Lr,
    Other(Seq<u8>, Option<Seq<u8>>),
}

impl<'a> View for UriParam<'a> {
    type V = UriParamView;

    open spec fn view(&self) -> UriParamView {
        match *self {
            UriParam::Transport(t) => UriParamView::Transport(t@),
            UriParam::User(u) => UriParamView::User(u@),
            UriParam::Method(m) => UriParamView::Method(m@),
            UriParam::Ttl(t) => UriParamView::Ttl(t),
            UriParam::Maddr(h) => UriParamView::Maddr(h@),
            UriParam::Lr => UriParamView::Lr,
            UriParam::Other(name, value) => UriParamView::Other(
                name@,
                match value {
                    Some(v) => Some(v@),
                    None => None,
                },
            ),
        }
    }
}

/// `lr`.
pub open spec fn lr_text() -> Seq<u8> {
    seq!['l' as u8, 'r' as u8]
}

/// `uri-parameter = transport-param / user-param / method-param / ttl-param
/// / maddr-param / lr-param / other-param`, with room for `cap` domain
/// labels: the rules are tried in this order, and the first that matches
/// decides. The next rule is tried only where the one before turned the input
/// down at its very start: once a keyword matched, a value that is
/// malformed fails as it is.
pub open spec fn spec_uri_parameter(s: Seq<u8>, cap: nat) -> Parse<UriParamView> {
    spec_transport_param(s).map(|t: TransportView| UriParamView::Transport(t)).or_at(
        s,
        spec_user_param(s).map(|u: UserView| UriParamView::User(u)),
    ).or_at(s, spec_method_param(s).map(|m: MethodView| UriParamView::Method(m))).or_at(
        s,
        spec_ttl_param(s).map(|t: u8| UriParamView::Ttl(t)),
    ).or_at(s, spec_maddr_param(s, cap).map(|h: HostView| UriParamView::Maddr(h))).or_at(
        s,
        keyword(s, lr_text()).map(|t: Seq<u8>| UriParamView::Lr),
    ).or_at(
        s,
        spec_other_param(s).map(
            |o: (Seq<u8>, Option<Seq<u8>>)| UriParamView::Other(o.0, o.1),
        ),
    ).or_at(s, Parse::Error(s, ErrorKind::Alt))
}

/// A keyword decides by the first byte of the input where that differs
/// from its own.
pub proof fn lemma_keyword_first(s: Seq<u8>, word: Seq<u8>)
    requires
        word.len() > 0,
    ensures
        s.len() > 0 && s[0] != word[0] ==> keyword(s, word) is Error,
        keyword(s, word) is Done ==> s.len() >= word.len() && s[0] == word[0],
        keyword(s, word) is Incomplete ==> s.len() < word.len() && (s.len() > 0 ==> s[0]
            == word[0]),
{
    if s.len() > 0 && s[0] != word[0] {
        assert(0 <= 0 < s.len() && 0 < word.len() && s[0int] != word[0int]);
    }
}

/// The keyword `maddr=` stands only where none of the rules before it in a
/// parameter can match or wait.
pub proof fn lemma_maddr_is_alone(s: Seq<u8>)
    requires
        keyword(s, maddr_text()) is Done,
    ensures
        spec_transport_param(s) matches Parse::Error(at, _) && at.len() == s.len(),
        spec_user_param(s) matches Parse::Error(at, _) && at.len() == s.len(),
        spec_method_param(s) matches Parse::Error(at, _) && at.len() == s.len(),
        spec_ttl_param(s) matches Parse::Error(at, _) && at.len() == s.len(),
{
    reveal(spec_transport_param);
    reveal(spec_user_param);
    reveal(spec_method_param);
    reveal(spec_ttl_param);
    lemma_keyword_first(s, maddr_text());
    lemma_keyword_first(s, transport_text());
    lemma_keyword_first(s, user_text());
    lemma_keyword_first(s, ttl_text());
    assert(0 <= 1 < s.len() && 1 < method_text().len() && s[1int] != method_text()[1int]);
}

/// One parameter of a URI. Where the rule for `maddr` is reached, the labels
/// of its host are written to `domains`.
pub fn uri_parameter<'a, 'b>(input: &'a [u8], domains: &'b mut [&'a [u8]]) -> (r: IResult<
    'a,
    UriParam<'a>,
>)
    ensures
        yields(r, spec_uri_parameter(input@, old(domains)@.len())),
        maddr_stored(old(domains)@, final(domains)@, input@),
{
    proof {
        if keyword(input@, maddr_text()) is Done {
            lemma_maddr_is_alone(input@);
        }
    }
    match transport_param(input) {
        Ok((rest, t)) => {
            return Ok((rest, UriParam::Transport(t)));
        },
        Err(Failure::Error(at, kind)) => {
            if at.len() != input.len() {
                return Err(Failure::Error(at, kind));
            }
        },
        Err(e) => {
            return Err(e);
        },
    }
    match user_param(input) {
        Ok((rest, u)) => {
            return Ok((rest, UriParam::User(u)));
        },
        Err(Failure::Error(at, kind)) => {
            if at.len() != input.len() {
                return Err(Failure::Error(at, kind));
            }
        },
        Err(e) => {
            return Err(e);
        },
    }
    match method_param(input) {
        Ok((rest, m)) => {
            return Ok((rest, UriParam::Method(m)));
        },
        Err(Failure::Error(at, kind)) => {
            if at.len() != input.len() {
                return Err(Failure::Error(at, kind));
            }
        },
        Err(e) => {
            return Err(e);
        },
    }
    match ttl_param(input) {
        Ok((rest, t)) => {
            return Ok((rest, UriParam::Ttl(t)));
        },
        Err(Failure::Error(at, kind)) => {
            if at.len() != input.len() {
                return Err(Failure::Error(at, kind));
            }
        },
        Err(e) => {
            return Err(e);
        },
    }
    match maddr_param(input, domains) {
        Ok((rest, h)) => {
            return Ok((rest, UriParam::Maddr(h)));
        },
        Err(Failure::Error(at, kind)) => {
            if at.len() != input.len() {
                return Err(Failure::Error(at, kind));
            }
        },
        Err(e) => {
            return Err(e);
        },
    }
    let lr = ['l' as u8, 'r' as u8];
    assert(lr@ =~= lr_text());
    match tag(input, &lr) {
        Ok((rest, _)) => {
            return Ok((rest, UriParam::Lr));
        },
        Err(Failure::Error(at, kind)) => {
            if at.len() != input.len() {
                return Err(Failure::Error(at, kind));
            }
        },
        Err(e) => {
            return Err(e);
        },
    }
    match other_param(input) {
        Ok((rest, o)) => Ok((rest, UriParam::Other(o.0, o.1))),
        Err(Failure::Error(at, kind)) => {
            if at.len() != input.len() {
                Err(Failure::Error(at, kind))
            } else {
                Err(Failure::Error(input, ErrorKind::Alt))
            }
        },
        Err(e) => Err(e),
    }
}

/// The labels in `domains` after the rule for `maddr` ran on `s`.
pub open spec fn maddr_labels_after(before: Seq<Seq<u8>>, s: Seq<u8>) -> Seq<Seq<u8>> {
    match keyword(s, maddr_text()) {
        Parse::Done(r, _) => labels_after(before, r),
        _ => before,
    }
}

/// `";" uri-parameter`.
pub open spec fn separated_param(s: Seq<u8>, cap: nat) -> Parse<UriParamView> {
    the_byte(s, ';' as u8).and_then(|r: Seq<u8>, sep: u8| spec_uri_parameter(r, cap))
}

/// What is left of `s` after `j` parameters and their semicolons.
pub open spec fn after_params(s: Seq<u8>, j: nat, cap: nat) -> Seq<u8>
    decreases j,
{
    if j == 0 {
        s
    } else {
        let before = after_params(s, (j - 1) as nat, cap);
        match separated_param(before, cap) {
            Parse::Done(r, _) => r,
            _ => before,
        }
    }
}

/// Whether a parameter stands behind the first `j` parameters of `s`.
pub open spec fn param_at(s: Seq<u8>, j: nat, cap: nat) -> bool {
    separated_param(after_params(s, j, cap), cap) is Done
}

/// The parameter behind the first `j` parameters of `s`.
pub open spec fn param_value(s: Seq<u8>, j: nat, cap: nat) -> UriParamView {
    separated_param(after_params(s, j, cap), cap)->Done_1
}

/// The number of parameters that `s` starts with.
pub open spec fn param_count(s: Seq<u8>, cap: nat) -> nat {
    leading_count(s.len(), |j: nat| param_at(s, j, cap))
}

/// `uri-parameters = *( ";" uri-parameter )` with room for `room`
/// parameters and `cap` domain labels: the remainder behind the last
/// parameter and the number of parameters. The list ends, and is no failure,
/// where no whole parameter follows a semicolon; that semicolon is left.
pub open spec fn spec_uri_parameters(s: Seq<u8>, cap: nat, room: nat) -> Parse<usize> {
    let m = param_count(s, cap);
    if m > room {
        Parse::CapacityExhausted(room as usize)
    } else {
        Parse::Done(after_params(s, m, cap), m as usize)
    }
}

/// The number of parameters written to an array with room for `room`.
pub open spec fn params_written(s: Seq<u8>, cap: nat, room: nat) -> nat {
    if param_count(s, cap) <= room {
        param_count(s, cap)
    } else {
        room
    }
}

/// The array of parameters after the parameters of `s` were written to it,
/// in the order of the input; the places behind them as they were.
pub open spec fn params_stored(
    before: Seq<UriParam>,
    after: Seq<UriParam>,
    s: Seq<u8>,
    cap: nat,
) -> bool {
    &&& after.len() == before.len()
    &&& forall|j: int|
        0 <= j < params_written(s, cap, before.len()) ==> (#[trigger] after[j])@ == param_value(
            s,
            j as nat,
            cap,
        )
    &&& forall|j: int|
        params_written(s, cap, before.len()) <= j < before.len() ==> #[trigger] after[j]
            == before[j]
}

/// The number of times that the list rule tries a parameter: once for each
/// parameter written, and once more where a semicolon follows them.
pub open spec fn attempts(s: Seq<u8>, cap: nat, room: nat) -> nat {
    let k = params_written(s, cap, room);
    if the_byte(after_params(s, k, cap), ';' as u8) is Done {
        k + 1
    } else {
        k
    }
}

/// The labels in `domains` after the list rule tried `j` parameters: each
/// try that reaches the rule for `maddr` writes the labels of its host over
/// what was there.
pub open spec fn labels_after_attempts(before: Seq<Seq<u8>>, s: Seq<u8>, j: nat, cap: nat) -> Seq<
    Seq<u8>,
>
    decreases j,
{
    if j == 0 {
        before
    } else {
        let earlier = labels_after_attempts(before, s, (j - 1) as nat, cap);
        match the_byte(after_params(s, (j - 1) as nat, cap), ';' as u8) {
            Parse::Done(r, _) => maddr_labels_after(earlier, r),
            _ => earlier,
        }
    }
}

/// The transport parameter stays within its input.
pub proof fn lemma_transport_param_within(s: Seq<u8>)
    ensures
        spec_transport_param(s).within(s),
{
    reveal(spec_transport_param);
    lemma_keyword_within(s, transport_text());
    if let Parse::Done(r, _) = keyword(s, transport_text()) {
        lemma_skip_is_tail(r, 0);
        lemma_keyword_within(r, seq!['u' as u8, 'd' as u8, 'p' as u8]);
        lemma_keyword_within(r, seq!['t' as u8, 'c' as u8, 'p' as u8]);
        lemma_keyword_within(r, seq!['s' as u8, 'c' as u8, 't' as u8, 'p' as u8]);
        lemma_keyword_within(r, seq!['t' as u8, 'l' as u8, 's' as u8]);
        lemma_bytes_within(r, |i: u8| is_token(i), 0);
        lemma_within_tail(spec_transport_param(s), r, s);
    }
}

/// The user parameter stays within its input.
pub proof fn lemma_user_param_within(s: Seq<u8>)
    ensures
        spec_user_param(s).within(s),
{
    reveal(spec_user_param);
    lemma_keyword_within(s, user_text());
    if let Parse::Done(r, _) = keyword(s, user_text()) {
        lemma_skip_is_tail(r, 0);
        lemma_keyword_within(r, seq!['p' as u8, 'h' as u8, 'o' as u8, 'n' as u8, 'e' as u8]);
        lemma_keyword_within(r, seq!['i' as u8, 'p' as u8]);
        lemma_bytes_within(r, |i: u8| is_token(i), 0);
        lemma_within_tail(spec_user_param(s), r, s);
    }
}

/// The method parameter stays within its input.
pub proof fn lemma_method_param_within(s: Seq<u8>)
    ensures
        spec_method_param(s).within(s),
{
    reveal(spec_method_param);
    lemma_keyword_within(s, method_text());
    if let Parse::Done(r, _) = keyword(s, method_text()) {
        lemma_method_within(r);
        lemma_within_tail(spec_method(r), r, s);
    }
}

/// The parameter of the time to live stays within its input.
pub proof fn lemma_ttl_param_within(s: Seq<u8>)
    ensures
        spec_ttl_param(s).within(s),
{
    reveal(spec_ttl_param);
    lemma_keyword_within(s, ttl_text());
    if let Parse::Done(r, _) = keyword(s, ttl_text()) {
        lemma_digits_within(r);
        lemma_within_tail(spec_dec_u8(r), r, s);
    }
}

/// The address parameter stays within its input.
pub proof fn lemma_maddr_param_within(s: Seq<u8>, cap: nat)
    ensures
        spec_maddr_param(s, cap).within(s),
{
    reveal(spec_maddr_param);
    lemma_keyword_within(s, maddr_text());
    if let Parse::Done(r, _) = keyword(s, maddr_text()) {
        lemma_host_within(r, cap);
        lemma_within_tail(spec_host(r, cap), r, s);
    }
}

/// A parameter that the grammar does not name stays within its input.
pub proof fn lemma_other_param_within(s: Seq<u8>)
    ensures
        spec_paramchar(s).within(s),
        spec_pname(s).within(s),
        spec_other_param(s).within(s),
{
    reveal(spec_other_param);
    let class = |i: u8| is_param_byte(i);
    lemma_characters_within(s, class);
    if let Parse::Done(r, _) = spec_pname(s) {
        lemma_skip_is_tail(r, 0);
        lemma_bytes_within(r, |i: u8| true, '=' as u8);
        if let Parse::Done(r2, _) = the_byte(r, '=' as u8) {
            lemma_characters_within(r2, class);
            lemma_within_tail(spec_pname(r2), r2, r);
        }
        lemma_within_tail(spec_equals_pvalue(r).optional(r), r, s);
    }
}

/// A parameter stays within its input.
pub proof fn lemma_uri_parameter_within(s: Seq<u8>, cap: nat)
    ensures
        spec_uri_parameter(s, cap).within(s),
{
    lemma_skip_is_tail(s, 0);
    lemma_transport_param_within(s);
    lemma_user_param_within(s);
    lemma_method_param_within(s);
    lemma_ttl_param_within(s);
    lemma_maddr_param_within(s, cap);
    lemma_keyword_within(s, lr_text());
    lemma_other_param_within(s);
}

/// A parameter behind its semicolon stays within its input and takes at
/// least one byte.
pub proof fn lemma_separated_param_within(s: Seq<u8>, cap: nat)
    ensures
        separated_param(s, cap).within(s),
        separated_param(s, cap) matches Parse::Done(r, _) ==> r.len() < s.len(),
{
    lemma_bytes_within(s, |i: u8| true, ';' as u8);
    if let Parse::Done(r, _) = the_byte(s, ';' as u8) {
        lemma_uri_parameter_within(r, cap);
        lemma_within_tail(spec_uri_parameter(r, cap), r, s);
    }
}

/// What is left after `j` parameters is a tail of the input, shorter by
/// at least `j` bytes.
pub proof fn lemma_after_params_is_tail(s: Seq<u8>, j: nat, cap: nat)
    requires
        forall|i: nat| i < j ==> param_at(s, i, cap),
    ensures
        is_tail(after_params(s, j, cap), s),
        after_params(s, j, cap).len() + j <= s.len(),
    decreases j,
{
    lemma_skip_is_tail(s, 0);
    if j > 0 {
        lemma_after_params_is_tail(s, (j - 1) as nat, cap);
        let before = after_params(s, (j - 1) as nat, cap);
        assert(param_at(s, (j - 1) as nat, cap));
        lemma_separated_param_within(before, cap);
        lemma_within_tail(separated_param(before, cap), before, s);
    }
}

/// The list of parameters stays within its input.
pub proof fn lemma_uri_parameters_within(s: Seq<u8>, cap: nat, room: nat)
    ensures
        spec_uri_parameters(s, cap, room).within(s),
{
    let ok = |j: nat| param_at(s, j, cap);
    lemma_leading_count_bounds(s.len(), ok);
    assert forall|i: nat| i < param_count(s, cap) implies param_at(s, i, cap) by {
        assert(ok(i));
    }
    lemma_after_params_is_tail(s, param_count(s, cap), cap);
}

/// The parameters of a URI, written to `params` in the order of the input.
pub fn uri_parameters<'a, 'b, 'c>(
    input: &'a [u8],
    domains: &'b mut [&'a [u8]],
    params: &'c mut [UriParam<'a>],
) -> (r: IResult<'a, usize>)
    ensures
        yields(r, spec_uri_parameters(input@, old(domains)@.len(), old(params)@.len())),
        params_stored(old(params)@, final(params)@, input@, old(domains)@.len()),
        final(domains)@.len() == old(domains)@.len(),
        label_views(final(domains)@) == labels_after_attempts(
            label_views(old(domains)@),
            input@,
            attempts(input@, old(domains)@.len(), old(params)@.len()),
            old(domains)@.len(),
        ),
{
    let ghost s = input@;
    let ghost cap = domains@.len();
    let ghost room = params@.len();
    let ghost ok = |j: nat| param_at(s, j, cap);
    let mut rest = input;
    let mut i: usize = 0;
    loop
        invariant
            s == input@,
            ok == (|j: nat| param_at(s, j, cap)),
            cap == old(domains)@.len(),
            room == old(params)@.len(),
            domains@.len() == cap,
            params@.len() == room,
            i <= room,
            rest@ == after_params(s, i as nat, cap),
            leading_count(i as nat, ok) == i,
            i + rest@.len() <= s.len(),
            forall|j: int| 0 <= j < i ==> (#[trigger] params@[j])@ == param_value(s, j as nat, cap),
            forall|j: int| i <= j < room ==> #[trigger] params@[j] == old(params)@[j],
            label_views(domains@) == labels_after_attempts(
                label_views(old(domains)@),
                s,
                i as nat,
                cap,
            ),
        decreases room - i,
    {
        let after_sep = match byte(rest, ';' as u8) {
            Ok((after, _)) => after,
            Err(_) => {
                proof {
                    lemma_leading_count_stops(i as nat, s.len(), ok);
                }
                return Ok((rest, i));
            },
        };
        let ghost labels_before = domains@;
        proof {
            lemma_separated_param_within(rest@, cap);
        }
        match uri_parameter(after_sep, domains) {
            Ok((after, found)) => {
                proof {
                    if keyword(after_sep@, maddr_text()) is Done {
                        lemma_labels_stored(
                            labels_before,
                            domains@,
                            keyword(after_sep@, maddr_text())->Done_0,
                        );
                    }
                }
                if i >= params.len() {
                    proof {
                        lemma_leading_count_reaches(i as nat, s.len(), ok);
                    }
                    return Err(Failure::CapacityExhausted(i));
                }
                params[i] = found;
                i += 1;
                rest = after;
            },
            Err(_) => {
                proof {
                    if keyword(after_sep@, maddr_text()) is Done {
                        lemma_labels_stored(
                            labels_before,
                            domains@,
                            keyword(after_sep@, maddr_text())->Done_0,
                        );
                    }
                    lemma_leading_count_stops(i as nat, s.len(), ok);
                }
                return Ok((rest, i));
            },
        }
    }
}

} // verus!
