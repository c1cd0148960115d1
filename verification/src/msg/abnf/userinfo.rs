//! The user part of a URI: a user name or a telephone number, and a password.

use vstd::prelude::*;
use crate::msg::abnf::{is_digit, is_unreserved, is_user_unreserved};
use crate::msg::abnf::ch::{
    count_elements, element_of, elements, elements1, lemma_characters_within, lemma_utf8, spec_utf8,
    utf8,
};
use crate::msg::abnf::digit::{single, spec_single};
use crate::msg::abnf::host::{
    hostname, hostname_span, labels_stored, lemma_hostname_within, spec_hostname,
};
use crate::msg::abnf::outcome::{
    at_least_one, at_least_one_of, byte, byte_where, fails_as, is_tail, keyword, lemma_bytes_within,
    lemma_keyword_within, lemma_skip_is_tail, lemma_tail_of_tail, lemma_within_tail, many, many_of,
    map_byte, tag, the_byte, yields, ErrorKind, Failure, IResult, Parse,
};

verus! {

/// `visual-separator = "-" / "." / "(" / ")"`.
pub open spec fn spec_is_visual_separator(i: u8) -> bool {
    i == '-' as u8 || i == '.' as u8 || i == '(' as u8 || i == ')' as u8
}

#[verifier::when_used_as_spec(spec_is_visual_separator)]
pub fn is_visual_separator(i: u8) -> (r: bool)
    ensures
        r == spec_is_visual_separator(i),
{
    i == '-' as u8 || i == '.' as u8 || i == '(' as u8 || i == ')' as u8
}

/// `dtmf-digit = "*" / "#" / "A" / "B" / "C" / "D"`.
pub open spec fn spec_is_dtmf_digit(i: u8) -> bool {
    i == '*' as u8 || i == '#' as u8 || ('A' as u8 <= i <= 'D' as u8)
}

#[verifier::when_used_as_spec(spec_is_dtmf_digit)]
pub fn is_dtmf_digit(i: u8) -> (r: bool)
    ensures
        r == spec_is_dtmf_digit(i),
{
    i == '*' as u8 || i == '#' as u8 || ('A' as u8 <= i && i <= 'D' as u8)
}

/// `token-char = %x21 / %x23-27 / %x2A-2B / %x2D-2E / %x30-39 / %x41-5A /
/// %x5E-7A / %x7C / %x7E`.
pub open spec fn spec_is_token_char(i: u8) -> bool {
    i == 0x21 || (0x23 <= i <= 0x27) || (0x2a <= i <= 0x2b) || (0x2d <= i <= 0x2e) || (0x30 <= i
        <= 0x39) || (0x41 <= i <= 0x5a) || (0x5e <= i <= 0x7a) || i == 0x7c || i == 0x7e
}

#[verifier::when_used_as_spec(spec_is_token_char)]
pub fn is_token_char(i: u8) -> (r: bool)
    ensures
        r == spec_is_token_char(i),
{
    i == 0x21 || (0x23 <= i && i <= 0x27) || (0x2a <= i && i <= 0x2b) || (0x2d <= i && i <= 0x2e)
        || (0x30 <= i && i <= 0x39) || (0x41 <= i && i <= 0x5a) || (0x5e <= i && i <= 0x7a) || i
        == 0x7c || i == 0x7e
}

/// The first byte of a `private-prefix`: `%x21-22 / %x24-27 / %x2C / %x2F /
/// %x3A / %x3C-40 / %x45-4F / %x51-56 / %x58-60 / %x65-6F / %x71-76 /
/// %x78-7E`.
pub open spec fn spec_is_private_first(i: u8) -> bool {
    (0x21 <= i <= 0x22) || (0x24 <= i <= 0x27) || i == 0x2c || i == 0x2f || i == 0x3a || (0x3c
        <= i <= 0x40) || (0x45 <= i <= 0x4f) || (0x51 <= i <= 0x56) || (0x58 <= i <= 0x60) || (
    0x65 <= i <= 0x6f) || (0x71 <= i <= 0x76) || (0x78 <= i <= 0x7e)
}

#[verifier::when_used_as_spec(spec_is_private_first)]
pub fn is_private_first(i: u8) -> (r: bool)
    ensures
        r == spec_is_private_first(i),
{
    (0x21 <= i && i <= 0x22) || (0x24 <= i && i <= 0x27) || i == 0x2c || i == 0x2f || i == 0x3a
        || (0x3c <= i && i <= 0x40) || (0x45 <= i && i <= 0x4f) || (0x51 <= i && i <= 0x56) || (
    0x58 <= i && i <= 0x60) || (0x65 <= i && i <= 0x6f) || (0x71 <= i && i <= 0x76) || (0x78 <= i
        && i <= 0x7e)
}

/// The further bytes of a `private-prefix`: `%x21-3A / %x3C-7E`.
pub open spec fn spec_is_private_more(i: u8) -> bool {
    (0x21 <= i <= 0x3a) || (0x3c <= i <= 0x7e)
}

#[verifier::when_used_as_spec(spec_is_private_more)]
pub fn is_private_more(i: u8) -> (r: bool)
    ensures
        r == spec_is_private_more(i),
{
    (0x21 <= i && i <= 0x3a) || (0x3c <= i && i <= 0x7e)
}

/// A byte that a quoted string holds as it is: `%x20-21 / %x23-7E / %x80-FF`.
pub open spec fn spec_is_quoted_byte(i: u8) -> bool {
    (0x20 <= i <= 0x21) || (0x23 <= i <= 0x7e) || 0x80 <= i
}

#[verifier::when_used_as_spec(spec_is_quoted_byte)]
pub fn is_quoted_byte(i: u8) -> (r: bool)
    ensures
        r == spec_is_quoted_byte(i),
{
    (0x20 <= i && i <= 0x21) || (0x23 <= i && i <= 0x7e) || 0x80 <= i
}

/// One visual separator.
pub fn visual_separator<'a>(input: &'a [u8]) -> (r: IResult<'a, u8>)
    ensures
        yields(r, byte_where(input@, |i: u8| is_visual_separator(i))),
{
    map_byte(input, is_visual_separator, Ghost(|i: u8| is_visual_separator(i)))
}

/// `phonedigit = DIGIT / visual-separator`: a digit as its value, a
/// separator as its byte.
pub open spec fn spec_phonedigit(s: Seq<u8>) -> Parse<u8> {
    spec_single(s).or(byte_where(s, |i: u8| is_visual_separator(i))).or(
        Parse::Error(s, ErrorKind::Alt),
    )
}

/// One digit of a telephone number.
pub fn phonedigit<'a>(input: &'a [u8]) -> (r: IResult<'a, u8>)
    ensures
        yields(r, spec_phonedigit(input@)),
{
    match single(input) {
        Err(Failure::Error(_, _)) => match visual_separator(input) {
            Err(Failure::Error(_, _)) => Err(Failure::Error(input, ErrorKind::Alt)),
            other => other,
        },
        other => other,
    }
}

/// `one-second-pause = "p"`.
pub fn one_second_pause<'a>(input: &'a [u8]) -> (r: IResult<'a, u8>)
    ensures
        yields(r, the_byte(input@, 'p' as u8)),
{
    byte(input, 'p' as u8)
}

/// `wait-for-dial-tone = "w"`.
pub fn wait_for_dial_tone<'a>(input: &'a [u8]) -> (r: IResult<'a, u8>)
    ensures
        yields(r, the_byte(input@, 'w' as u8)),
{
    byte(input, 'w' as u8)
}

/// `pause-character = one-second-pause / wait-for-dial-tone`.
pub open spec fn spec_pause_character(s: Seq<u8>) -> Parse<u8> {
    the_byte(s, 'p' as u8).or(the_byte(s, 'w' as u8)).or(Parse::Error(s, ErrorKind::Alt))
}

/// One pause character.
pub fn pause_character<'a>(input: &'a [u8]) -> (r: IResult<'a, u8>)
    ensures
        yields(r, spec_pause_character(input@)),
{
    match one_second_pause(input) {
        Err(Failure::Error(_, _)) => match wait_for_dial_tone(input) {
            Err(Failure::Error(_, _)) => Err(Failure::Error(input, ErrorKind::Alt)),
            other => other,
        },
        other => other,
    }
}

/// One DTMF digit.
pub fn dtmf_digit<'a>(input: &'a [u8]) -> (r: IResult<'a, u8>)
    ensures
        yields(r, byte_where(input@, |i: u8| is_dtmf_digit(i))),
{
    map_byte(input, is_dtmf_digit, Ghost(|i: u8| is_dtmf_digit(i)))
}

/// One character of a token of a telephone number.
pub fn token_char<'a>(input: &'a [u8]) -> (r: IResult<'a, u8>)
    ensures
        yields(r, byte_where(input@, |i: u8| is_token_char(i))),
{
    map_byte(input, is_token_char, Ghost(|i: u8| is_token_char(i)))
}

/// `phonedigit / dtmf-digit / pause-character`: what a local number, a local
/// network prefix and a post-dial sequence are made of.
pub open spec fn spec_dial_character(s: Seq<u8>) -> Parse<u8> {
    spec_phonedigit(s).or(byte_where(s, |i: u8| is_dtmf_digit(i))).or(spec_pause_character(s)).or(
        Parse::Error(s, ErrorKind::Alt),
    )
}

/// One character that can be dialled.
pub fn dial_character<'a>(input: &'a [u8]) -> (r: IResult<'a, u8>)
    ensures
        yields(r, spec_dial_character(input@)),
{
    match phonedigit(input) {
        Err(Failure::Error(_, _)) => match dtmf_digit(input) {
            Err(Failure::Error(_, _)) => match pause_character(input) {
                Err(Failure::Error(_, _)) => Err(Failure::Error(input, ErrorKind::Alt)),
                other => other,
            },
            other => other,
        },
        other => other,
    }
}

/// The opening quote, then the body of a quoted string from `s` on, with
/// `n` bytes of it read already: a closing quote ends it, a backslash takes
/// the character after it along, whatever that is, and any other byte must be
/// one that a quoted string holds. `whole` is the input of the rule, where a
/// byte that the string cannot hold turns it down.
pub open spec fn quoted_body(whole: Seq<u8>, s: Seq<u8>, n: nat) -> Parse<Seq<u8>>
    decreases s.len(),
{
    if s.len() == 0 {
        Parse::Incomplete(1)
    } else if s[0] == '"' as u8 {
        Parse::Done(s.skip(1), whole.subrange(1, 1 + n as int))
    } else if s[0] == '\\' as u8 {
        match spec_utf8(s.skip(1)) {
            Parse::Done(r, _) => if r.len() < s.len() {
                quoted_body(whole, r, n + (s.len() - r.len()) as nat)
            } else {
                Parse::Error(whole, ErrorKind::Char)
            },
            Parse::Incomplete(m) => Parse::Incomplete(m),
            Parse::Error(at, kind) => Parse::Error(at, kind),
            Parse::CapacityExhausted(m) => Parse::CapacityExhausted(m),
        }
    } else if is_quoted_byte(s[0]) {
        quoted_body(whole, s.skip(1), n + 1)
    } else {
        Parse::Error(whole, ErrorKind::Char)
    }
}

/// `quoted-string = %x22 *( "\" CHAR / (%x20-21 / %x23-7E / %x80-FF) ) %x22`,
/// as what stands between the quotes.
pub open spec fn spec_quoted_string(s: Seq<u8>) -> Parse<Seq<u8>> {
    the_byte(s, '"' as u8).and_then(|r: Seq<u8>, quote: u8| quoted_body(s, r, 0))
}

/// A quoted string.
pub fn quoted_string<'a>(input: &'a [u8]) -> (r: IResult<'a, &'a [u8]>)
    ensures
        yields(r, spec_quoted_string(input@)),
{
    let ghost s = input@;
    let (mut rest, _) = byte(input, '"' as u8)?;
    let mut counter: usize = 0;
    loop
        invariant
            s == input@,
            s.len() >= 1,
            s.len() == input.len(),
            rest@ == s.skip(1 + counter),
            1 + counter <= s.len(),
            spec_quoted_string(s) == quoted_body(s, rest@, counter as nat),
        decreases rest@.len(),
    {
        if rest.len() == 0 {
            return Err(Failure::Incomplete(1));
        }
        let ch = rest[0];
        let after = &rest[1..rest.len()];
        if ch == '"' as u8 {
            return Ok((after, &input[1..counter + 1]));
        } else if ch == '\\' as u8 {
            let (r, _) = utf8(after)?;
            assert(r@.len() < rest@.len() && r@ == s.skip(s.len() - r@.len())) by {
                assert(after@ == s.skip(2 + counter));
                crate::msg::abnf::ch::lemma_utf8(after@);
                let w = after@.len() - r@.len();
                assert(s.skip(2 + counter).skip(w) =~= s.skip(2 + counter + w));
            }
            counter = input.len() - r.len() - 1;
            rest = r;
        } else if is_quoted_byte(ch) {
            assert(s.skip(1 + counter).skip(1) =~= s.skip(2 + counter));
            counter += 1;
            rest = after;
        } else {
            return Err(Failure::Error(input, ErrorKind::Char));
        }
    }
}

/// A quoted body stays within the input of its rule.
pub proof fn lemma_quoted_body_within(whole: Seq<u8>, s: Seq<u8>, n: nat)
    requires
        is_tail(s, whole),
    ensures
        quoted_body(whole, s, n).within(whole),
    decreases s.len(),
{
    lemma_skip_is_tail(whole, 0);
    if s.len() > 0 {
        lemma_skip_is_tail(s, 1);
        lemma_tail_of_tail(s.skip(1), s, whole);
        if s[0] == '\\' as u8 {
            let p = spec_utf8(s.skip(1));
            if let Parse::Done(r, _) = p {
                lemma_utf8(s.skip(1));
                lemma_skip_is_tail(s.skip(1), s.skip(1).len() - r.len());
                lemma_tail_of_tail(r, s.skip(1), whole);
                lemma_quoted_body_within(whole, r, n + (s.len() - r.len()) as nat);
            } else if let Parse::Error(at, _) = p {
                lemma_skip_is_tail(s.skip(1), 0);
                lemma_tail_of_tail(at, s.skip(1), whole);
            }
        } else if s[0] != '"' as u8 && is_quoted_byte(s[0]) {
            lemma_quoted_body_within(whole, s.skip(1), n + 1);
        }
    }
}

/// A quoted string stays within its input.
pub proof fn lemma_quoted_string_within(s: Seq<u8>)
    ensures
        spec_quoted_string(s).within(s),
{
    lemma_bytes_within(s, |i: u8| true, '"' as u8);
    if the_byte(s, '"' as u8) is Done {
        lemma_quoted_body_within(s, s.skip(1), 0);
    }
}

/// What a rule consumed, in place of its value.
pub open spec fn recognized<T>(p: Parse<T>, s: Seq<u8>) -> Parse<Seq<u8>> {
    match p {
        Parse::Done(rest, _) => Parse::Done(rest, s.take(s.len() - rest.len())),
        Parse::Incomplete(n) => Parse::Incomplete(n),
        Parse::Error(at, kind) => Parse::Error(at, kind),
        Parse::CapacityExhausted(n) => Parse::CapacityExhausted(n),
    }
}

/// The bytes of `input` in front of its tail `rest`.
fn consumed<'a>(input: &'a [u8], rest: &[u8]) -> (r: &'a [u8])
    requires
        is_tail(rest@, input@),
    ensures
        r@ == input@.take(input@.len() - rest@.len()),
{
    &input[0..input.len() - rest.len()]
}

/// `;isub=`.
pub open spec fn isub_text() -> Seq<u8> {
    seq![';' as u8, 'i' as u8, 's' as u8, 'u' as u8, 'b' as u8, '=' as u8]
}

/// `;postd=`.
pub open spec fn postd_text() -> Seq<u8> {
    seq![';' as u8, 'p' as u8, 'o' as u8, 's' as u8, 't' as u8, 'd' as u8, '=' as u8]
}

/// `phone-context`.
pub open spec fn phone_context_text() -> Seq<u8> {
    seq![
        'p' as u8,
        'h' as u8,
        'o' as u8,
        'n' as u8,
        'e' as u8,
        '-' as u8,
        'c' as u8,
        'o' as u8,
        'n' as u8,
        't' as u8,
        'e' as u8,
        'x' as u8,
        't' as u8,
    ]
}

/// `tsp`.
pub open spec fn tsp_text() -> Seq<u8> {
    seq!['t' as u8, 's' as u8, 'p' as u8]
}

/// `isdn-subaddress`: `;isub=` and a digit of a telephone number.
pub open spec fn spec_isdn_subaddress(s: Seq<u8>) -> Parse<u8> {
    keyword(s, isub_text()).and_then(|r: Seq<u8>, t: Seq<u8>| spec_phonedigit(r))
}

/// An ISDN subaddress.
pub fn isdn_subaddress<'a>(input: &'a [u8]) -> (r: IResult<'a, u8>)
    ensures
        yields(r, spec_isdn_subaddress(input@)),
{
    let text = [';' as u8, 'i' as u8, 's' as u8, 'u' as u8, 'b' as u8, '=' as u8];
    assert(text@ =~= isub_text());
    let (rest, _) = tag(input, &text)?;
    phonedigit(rest)
}

/// `post-dial`: `;postd=` and a character that can be dialled.
pub open spec fn spec_post_dial(s: Seq<u8>) -> Parse<u8> {
    keyword(s, postd_text()).and_then(|r: Seq<u8>, t: Seq<u8>| spec_dial_character(r))
}

/// A post-dial sequence.
pub fn post_dial<'a>(input: &'a [u8]) -> (r: IResult<'a, u8>)
    ensures
        yields(r, spec_post_dial(input@)),
{
    let text = [';' as u8, 'p' as u8, 'o' as u8, 's' as u8, 't' as u8, 'd' as u8, '=' as u8];
    assert(text@ =~= postd_text());
    let (rest, _) = tag(input, &text)?;
    dial_character(rest)
}

/// The prefix of a telephone network.
#[derive(Debug, PartialEq, Eq, Clone, Copy, Structural)]
pub enum NetworkPrefix {
    /// A global prefix: what stands behind its `+`.
    Global(u8),
    /// A local prefix.
    Local(u8),
}

impl View for NetworkPrefix {
    type V = NetworkPrefix;

    open spec fn view(&self) -> NetworkPrefix {
        *self
    }
}

/// What tells the context of a telephone number.
#[derive(Debug, PartialEq, Eq, Clone, Copy)]
pub enum PhoneContextIdent<'a> {
    NetworkPrefix(NetworkPrefix),
    PrivatePrefix(&'a [u8]),
}

/// The value of a [`PhoneContextIdent`].
pub enum PhoneContextIdentView {
    NetworkPrefix(NetworkPrefix),
    PrivatePrefix(Seq<u8>),
}

impl<'a> View for PhoneContextIdent<'a> {
    type V = PhoneContextIdentView;

    open spec fn view(&self) -> PhoneContextIdentView {
        match *self {
            PhoneContextIdent::NetworkPrefix(p) => PhoneContextIdentView::NetworkPrefix(p),
            PhoneContextIdent::PrivatePrefix(p) => PhoneContextIdentView::PrivatePrefix(p@),
        }
    }
}

/// `global-network-prefix`: `+` and a digit of a telephone number.
pub open spec fn spec_global_network_prefix(s: Seq<u8>) -> Parse<u8> {
    the_byte(s, '+' as u8).and_then(|r: Seq<u8>, plus: u8| spec_phonedigit(r))
}

/// A global network prefix.
pub fn global_network_prefix<'a>(input: &'a [u8]) -> (r: IResult<'a, u8>)
    ensures
        yields(r, spec_global_network_prefix(input@)),
{
    let (rest, _) = byte(input, '+' as u8)?;
    phonedigit(rest)
}

/// A local network prefix: a character that can be dialled.
pub fn local_network_prefix<'a>(input: &'a [u8]) -> (r: IResult<'a, u8>)
    ensures
        yields(r, spec_dial_character(input@)),
{
    dial_character(input)
}

/// `network-prefix = global-network-prefix / local-network-prefix`.
pub open spec fn spec_network_prefix(s: Seq<u8>) -> Parse<NetworkPrefix> {
    spec_global_network_prefix(s).map(|b: u8| NetworkPrefix::Global(b)).or(
        spec_dial_character(s).map(|b: u8| NetworkPrefix::Local(b)),
    ).or(Parse::Error(s, ErrorKind::Alt))
}

/// A network prefix.
pub fn network_prefix<'a>(input: &'a [u8]) -> (r: IResult<'a, NetworkPrefix>)
    ensures
        yields(r, spec_network_prefix(input@)),
{
    match global_network_prefix(input) {
        Ok((rest, b)) => Ok((rest, NetworkPrefix::Global(b))),
        Err(Failure::Error(_, _)) => match local_network_prefix(input) {
            Ok((rest, b)) => Ok((rest, NetworkPrefix::Local(b))),
            Err(Failure::Error(_, _)) => Err(Failure::Error(input, ErrorKind::Alt)),
            Err(e) => Err(e),
        },
        Err(e) => Err(e),
    }
}

/// `private-prefix`: a first byte of its own class and the run of further
/// bytes behind it.
pub open spec fn spec_private_prefix(s: Seq<u8>) -> Parse<Seq<u8>> {
    recognized(
        byte_where(s, |i: u8| is_private_first(i)).and_then(
            |r: Seq<u8>, b: u8| many(r, |i: u8| is_private_more(i)),
        ),
        s,
    )
}

/// A private prefix.
pub fn private_prefix<'a>(input: &'a [u8]) -> (r: IResult<'a, &'a [u8]>)
    ensures
        yields(r, spec_private_prefix(input@)),
{
    let (rest, _) = map_byte(input, is_private_first, Ghost(|i: u8| is_private_first(i)))?;
    let (after, _) = many_of(rest, is_private_more, Ghost(|i: u8| is_private_more(i)))?;
    proof {
        lemma_bytes_within(input@, |i: u8| is_private_first(i), 0);
        lemma_bytes_within(rest@, |i: u8| is_private_more(i), 0);
        lemma_tail_of_tail(after@, rest@, input@);
    }
    Ok((after, consumed(input, after)))
}

/// `phone-context-ident = network-prefix / private-prefix`.
pub open spec fn spec_phone_context_ident(s: Seq<u8>) -> Parse<PhoneContextIdentView> {
    spec_network_prefix(s).map(|p: NetworkPrefix| PhoneContextIdentView::NetworkPrefix(p)).or(
        spec_private_prefix(s).map(|p: Seq<u8>| PhoneContextIdentView::PrivatePrefix(p)),
    ).or(Parse::Error(s, ErrorKind::Alt))
}

/// What tells the context of a telephone number.
pub fn phone_context_ident<'a>(input: &'a [u8]) -> (r: IResult<'a, PhoneContextIdent<'a>>)
    ensures
        yields(r, spec_phone_context_ident(input@)),
{
    match network_prefix(input) {
        Ok((rest, p)) => Ok((rest, PhoneContextIdent::NetworkPrefix(p))),
        Err(Failure::Error(_, _)) => match private_prefix(input) {
            Ok((rest, p)) => Ok((rest, PhoneContextIdent::PrivatePrefix(p))),
            Err(Failure::Error(_, _)) => Err(Failure::Error(input, ErrorKind::Alt)),
            Err(e) => Err(e),
        },
        Err(e) => Err(e),
    }
}

/// `phone-context-tag = "phone-context"`.
pub fn phone_context_tag<'a>(input: &'a [u8]) -> (r: IResult<'a, &'a [u8]>)
    ensures
        yields(r, keyword(input@, phone_context_text())),
{
    let text = [
        'p' as u8,
        'h' as u8,
        'o' as u8,
        'n' as u8,
        'e' as u8,
        '-' as u8,
        'c' as u8,
        'o' as u8,
        'n' as u8,
        't' as u8,
        'e' as u8,
        'x' as u8,
        't' as u8,
    ];
    assert(text@ =~= phone_context_text());
    tag(input, &text)
}

/// `area-specifier = ";" phone-context-tag "=" phone-context-ident`.
#[verifier::opaque]
pub open spec fn spec_area_specifier(s: Seq<u8>) -> Parse<PhoneContextIdentView> {
    the_byte(s, ';' as u8).and_then(
        |r1: Seq<u8>, semi: u8|
            keyword(r1, phone_context_text()).and_then(
                |r2: Seq<u8>, t: Seq<u8>|
                    the_byte(r2, '=' as u8).and_then(
                        |r3: Seq<u8>, eq: u8| spec_phone_context_ident(r3),
                    ),
            ),
    )
}

/// The context in which a telephone number holds.
pub fn area_specifier<'a>(input: &'a [u8]) -> (r: IResult<'a, PhoneContextIdent<'a>>)
    ensures
        yields(r, spec_area_specifier(input@)),
{
    reveal(spec_area_specifier);
    let (rest, _) = byte(input, ';' as u8)?;
    let (rest, _) = phone_context_tag(rest)?;
    let (rest, _) = byte(rest, '=' as u8)?;
    phone_context_ident(rest)
}

/// `provider-tag = "tsp"`.
pub fn provider_tag<'a>(input: &'a [u8]) -> (r: IResult<'a, &'a [u8]>)
    ensures
        yields(r, keyword(input@, tsp_text())),
{
    let text = ['t' as u8, 's' as u8, 'p' as u8];
    assert(text@ =~= tsp_text());
    tag(input, &text)
}

/// `provider-hostname`: a host name, of which the labels are written to
/// `domains`.
pub fn provider_hostname<'a, 'b>(input: &'a [u8], domains: &'b mut [&'a [u8]]) -> (r: IResult<
    'a,
    (&'a [u8], usize),
>)
    ensures
        yields(r, spec_hostname(input@, old(domains)@.len())),
        labels_stored(old(domains)@, final(domains)@, input@),
{
    hostname(input, domains)
}

/// What stands before the host name of a service provider: `;tsp=`.
pub open spec fn spec_provider_lead(s: Seq<u8>) -> Parse<u8> {
    the_byte(s, ';' as u8).and_then(
        |r1: Seq<u8>, semi: u8|
            keyword(r1, tsp_text()).and_then(
                |r2: Seq<u8>, t: Seq<u8>| the_byte(r2, '=' as u8),
            ),
    )
}

/// `service-provider = ";" provider-tag "=" provider-hostname`, with room
/// for `cap` domain labels.
#[verifier::opaque]
pub open spec fn spec_service_provider(s: Seq<u8>, cap: nat) -> Parse<(Seq<u8>, usize)> {
    spec_provider_lead(s).and_then(|r: Seq<u8>, eq: u8| spec_hostname(r, cap))
}

/// The labels in `domains` after the rule for a service provider ran on
/// `s`: those of its host name, where `;tsp=` stands before it.
pub open spec fn provider_stored(before: Seq<&[u8]>, after: Seq<&[u8]>, s: Seq<u8>) -> bool {
    match spec_provider_lead(s) {
        Parse::Done(r, _) => labels_stored(before, after, r),
        _ => after == before,
    }
}

fn provider_lead<'a>(input: &'a [u8]) -> (r: IResult<'a, u8>)
    ensures
        yields(r, spec_provider_lead(input@)),
{
    let (rest, _) = byte(input, ';' as u8)?;
    let (rest, _) = provider_tag(rest)?;
    byte(rest, '=' as u8)
}

/// The provider of a telephone service, by its host name.
pub fn service_provider<'a, 'b>(input: &'a [u8], domains: &'b mut [&'a [u8]]) -> (r: IResult<
    'a,
    (&'a [u8], usize),
>)
    ensures
        yields(r, spec_service_provider(input@, old(domains)@.len())),
        provider_stored(old(domains)@, final(domains)@, input@),
{
    reveal(spec_service_provider);
    let (rest, _) = provider_lead(input)?;
    provider_hostname(rest, domains)
}

/// The value of an extension of a telephone number.
#[derive(Debug, PartialEq, Eq, Clone, Copy)]
pub enum FutureExtensionValue<'a> {
    /// A token, and a second one where a question mark follows the first.
    Token(&'a [u8], Option<&'a [u8]>),
    /// What stands between the quotes of a quoted string.
    Quoted(&'a [u8]),
}

/// The value of a [`FutureExtensionValue`].
pub enum FutureExtensionValueView {
    Token(Seq<u8>, Option<Seq<u8>>),
    Quoted(Seq<u8>),
}

impl<'a> View for FutureExtensionValue<'a> {
    type V = FutureExtensionValueView;

    open spec fn view(&self) -> FutureExtensionValueView {
        match *self {
            FutureExtensionValue::Token(name, value) => FutureExtensionValueView::Token(
                name@,
                match value {
                    Some(v) => Some(v@),
                    None => None,
                },
            ),
            FutureExtensionValue::Quoted(text) => FutureExtensionValueView::Quoted(text@),
        }
    }
}

/// `1*(token-char) ["?" 1*(token-char)]`.
pub open spec fn spec_extension_tokens(s: Seq<u8>) -> Parse<FutureExtensionValueView> {
    at_least_one(s, |i: u8| is_token_char(i)).and_then(
        |r: Seq<u8>, name: Seq<u8>|
            the_byte(r, '?' as u8).and_then(
                |r2: Seq<u8>, q: u8| at_least_one(r2, |i: u8| is_token_char(i)),
            ).optional(r).map(|value: Option<Seq<u8>>| FutureExtensionValueView::Token(name, value)),
    )
}

/// The value of an extension: tokens, or a quoted string where no token
/// stands.
pub open spec fn spec_extension_value(s: Seq<u8>) -> Parse<FutureExtensionValueView> {
    spec_extension_tokens(s).or(
        spec_quoted_string(s).map(|t: Seq<u8>| FutureExtensionValueView::Quoted(t)),
    ).or(Parse::Error(s, ErrorKind::Alt))
}

/// `future-extension = ";" 1*(token-char) ["=" ((1*(token-char) ["?"
/// 1*(token-char)]) / quoted-string )]`, as the name and the value. An
/// equals sign commits to a value.
#[verifier::opaque]
pub open spec fn spec_future_extension(s: Seq<u8>) -> Parse<
    (Seq<u8>, Option<FutureExtensionValueView>),
> {
    the_byte(s, ';' as u8).and_then(
        |r1: Seq<u8>, semi: u8|
            at_least_one(r1, |i: u8| is_token_char(i)).and_then(
                |r2: Seq<u8>, name: Seq<u8>|
                    match the_byte(r2, '=' as u8) {
                        Parse::Done(r3, _) => spec_extension_value(r3).map(
                            |v: FutureExtensionValueView| (name, Some(v)),
                        ),
                        _ => Parse::Done(r2, (name, None)),
                    },
            ),
    )
}

fn question_and_tokens<'a>(input: &'a [u8]) -> (r: IResult<'a, &'a [u8]>)
    ensures
        yields(
            r,
            the_byte(input@, '?' as u8).and_then(
                |r2: Seq<u8>, q: u8| at_least_one(r2, |i: u8| is_token_char(i)),
            ),
        ),
{
    let (rest, _) = byte(input, '?' as u8)?;
    at_least_one_of(rest, is_token_char, Ghost(|i: u8| is_token_char(i)))
}

fn extension_tokens<'a>(input: &'a [u8]) -> (r: IResult<'a, FutureExtensionValue<'a>>)
    ensures
        yields(r, spec_extension_tokens(input@)),
{
    let (rest, name) = at_least_one_of(input, is_token_char, Ghost(|i: u8| is_token_char(i)))?;
    match question_and_tokens(rest) {
        Ok((after, value)) => Ok((after, FutureExtensionValue::Token(name, Some(value)))),
        Err(Failure::Error(_, _)) => Ok((rest, FutureExtensionValue::Token(name, None))),
        Err(e) => Err(e),
    }
}

fn extension_value<'a>(input: &'a [u8]) -> (r: IResult<'a, FutureExtensionValue<'a>>)
    ensures
        yields(r, spec_extension_value(input@)),
{
    match extension_tokens(input) {
        Err(Failure::Error(_, _)) => match quoted_string(input) {
            Ok((rest, text)) => Ok((rest, FutureExtensionValue::Quoted(text))),
            Err(Failure::Error(_, _)) => Err(Failure::Error(input, ErrorKind::Alt)),
            Err(e) => Err(e),
        },
        other => other,
    }
}

/// The executable form of a name and its optional value is the outcome `p`.
pub open spec fn yields_extension<'a>(
    r: IResult<'a, (&'a [u8], Option<FutureExtensionValue<'a>>)>,
    p: Parse<(Seq<u8>, Option<FutureExtensionValueView>)>,
) -> bool {
    match p {
        Parse::Done(rest, value) => r matches Ok((i, o)) && i@ == rest && o.0@ == value.0
            && match value.1 {
            Some(v) => o.1 matches Some(found) && found@ == v,
            None => o.1 is None,
        },
        _ => fails_as(r, p),
    }
}

/// An extension of a telephone number that the grammar does not name.
pub fn future_extension<'a>(input: &'a [u8]) -> (r: IResult<
    'a,
    (&'a [u8], Option<FutureExtensionValue<'a>>),
>)
    ensures
        yields_extension(r, spec_future_extension(input@)),
{
    reveal(spec_future_extension);
    let (rest, _) = byte(input, ';' as u8)?;
    let (rest, name) = at_least_one_of(rest, is_token_char, Ghost(|i: u8| is_token_char(i)))?;
    match byte(rest, '=' as u8) {
        Ok((after, _)) => {
            let (after, value) = extension_value(after)?;
            Ok((after, (name, Some(value))))
        },
        Err(_) => Ok((rest, (name, None))),
    }
}

/// The rules of single dialled characters stay within their input.
pub proof fn lemma_dial_within(s: Seq<u8>)
    ensures
        spec_single(s).within(s),
        spec_phonedigit(s).within(s),
        spec_pause_character(s).within(s),
        spec_dial_character(s).within(s),
{
    lemma_bytes_within(s, |i: u8| is_digit(i), 'p' as u8);
    lemma_bytes_within(s, |i: u8| is_visual_separator(i), 'w' as u8);
    lemma_bytes_within(s, |i: u8| is_dtmf_digit(i), 0);
    lemma_skip_is_tail(s, 0);
}

/// The optional parts of a telephone number stay within their input.
pub proof fn lemma_isdn_post_dial_within(s: Seq<u8>)
    ensures
        spec_isdn_subaddress(s).within(s),
        spec_post_dial(s).within(s),
{
    lemma_keyword_within(s, isub_text());
    lemma_keyword_within(s, postd_text());
    if let Parse::Done(r, _) = keyword(s, isub_text()) {
        lemma_dial_within(r);
        lemma_within_tail(spec_phonedigit(r), r, s);
    }
    if let Parse::Done(r, _) = keyword(s, postd_text()) {
        lemma_dial_within(r);
        lemma_within_tail(spec_dial_character(r), r, s);
    }
}

/// What tells the context of a telephone number stays within its input.
pub proof fn lemma_phone_context_ident_within(s: Seq<u8>)
    ensures
        spec_phone_context_ident(s).within(s),
{
    lemma_skip_is_tail(s, 0);
    lemma_dial_within(s);
    lemma_bytes_within(s, |i: u8| is_private_first(i), '+' as u8);
    if s.len() > 0 {
        let r = s.skip(1);
        lemma_dial_within(r);
        lemma_within_tail(spec_phonedigit(r), r, s);
        lemma_bytes_within(r, |i: u8| is_private_more(i), 0);
        lemma_within_tail(many(r, |i: u8| is_private_more(i)), r, s);
    }
}

/// An area specifier stays within its input and takes at least one byte.
pub proof fn lemma_area_specifier_within(s: Seq<u8>)
    ensures
        spec_area_specifier(s).within(s),
        spec_area_specifier(s) matches Parse::Done(r, _) ==> r.len() < s.len(),
{
    reveal(spec_area_specifier);
    lemma_bytes_within(s, |i: u8| true, ';' as u8);
    if let Parse::Done(r1, _) = the_byte(s, ';' as u8) {
        lemma_keyword_within(r1, phone_context_text());
        lemma_within_tail(keyword(r1, phone_context_text()), r1, s);
        if let Parse::Done(r2, _) = keyword(r1, phone_context_text()) {
            lemma_bytes_within(r2, |i: u8| true, '=' as u8);
            lemma_within_tail(the_byte(r2, '=' as u8), r2, s);
            if let Parse::Done(r3, _) = the_byte(r2, '=' as u8) {
                lemma_phone_context_ident_within(r3);
                lemma_within_tail(spec_phone_context_ident(r3), r3, s);
            }
        }
    }
}

/// What stands before the host name of a service provider stays within
/// its input and takes at least one byte.
pub proof fn lemma_provider_lead_within(s: Seq<u8>)
    ensures
        spec_provider_lead(s).within(s),
        spec_provider_lead(s) matches Parse::Done(r, _) ==> r.len() < s.len(),
{
    lemma_bytes_within(s, |i: u8| true, ';' as u8);
    if let Parse::Done(r1, _) = the_byte(s, ';' as u8) {
        lemma_keyword_within(r1, tsp_text());
        lemma_within_tail(keyword(r1, tsp_text()), r1, s);
        if let Parse::Done(r2, _) = keyword(r1, tsp_text()) {
            lemma_bytes_within(r2, |i: u8| true, '=' as u8);
            lemma_within_tail(the_byte(r2, '=' as u8), r2, s);
        }
    }
}

/// The value of an extension stays within its input.
pub proof fn lemma_extension_value_within(s: Seq<u8>)
    ensures
        spec_extension_value(s).within(s),
{
    let class = |i: u8| is_token_char(i);
    lemma_skip_is_tail(s, 0);
    lemma_bytes_within(s, class, 0);
    if let Parse::Done(r, _) = at_least_one(s, class) {
        lemma_bytes_within(r, class, '?' as u8);
        if let Parse::Done(r2, _) = the_byte(r, '?' as u8) {
            lemma_bytes_within(r2, class, 0);
            lemma_tail_of_tail(r2, r, s);
            lemma_within_tail(at_least_one(r2, class), r2, s);
        }
    }
    lemma_quoted_string_within(s);
}

/// An extension stays within its input and takes at least one byte.
pub proof fn lemma_future_extension_within(s: Seq<u8>)
    ensures
        spec_future_extension(s).within(s),
        spec_future_extension(s) matches Parse::Done(r, _) ==> r.len() < s.len(),
{
    reveal(spec_future_extension);
    let class = |i: u8| is_token_char(i);
    lemma_bytes_within(s, |i: u8| true, ';' as u8);
    if let Parse::Done(r1, _) = the_byte(s, ';' as u8) {
        lemma_bytes_within(r1, class, 0);
        lemma_within_tail(at_least_one(r1, class), r1, s);
        if let Parse::Done(r2, _) = at_least_one(r1, class) {
            lemma_bytes_within(r2, |i: u8| true, '=' as u8);
            if let Parse::Done(r3, _) = the_byte(r2, '=' as u8) {
                lemma_tail_of_tail(r3, r2, s);
                lemma_extension_value_within(r3);
                lemma_within_tail(spec_extension_value(r3), r3, s);
            }
        }
    }
}

/// A service provider of which no label is stored: the rule with room for
/// every label.
pub open spec fn spec_service_provider_span(s: Seq<u8>) -> Parse<(Seq<u8>, usize)> {
    spec_provider_lead(s).and_then(|r: Seq<u8>, eq: u8| spec_hostname(r, r.len()))
}

/// One suffix of a telephone number, as the bytes that it takes: an area
/// specifier, a service provider or an extension, tried in this order.
pub open spec fn spec_suffix(s: Seq<u8>) -> Parse<Seq<u8>> {
    recognized(spec_area_specifier(s), s).or(recognized(spec_service_provider_span(s), s)).or(
        recognized(spec_future_extension(s), s),
    ).or(Parse::Error(s, ErrorKind::Alt))
}

/// A suffix stays within its input and takes at least one byte.
pub proof fn lemma_suffix_within(s: Seq<u8>)
    ensures
        spec_suffix(s).within(s),
        spec_suffix(s) matches Parse::Done(r, _) ==> r.len() < s.len(),
{
    lemma_skip_is_tail(s, 0);
    lemma_area_specifier_within(s);
    lemma_provider_lead_within(s);
    if let Parse::Done(r, _) = spec_provider_lead(s) {
        lemma_hostname_within(r, r.len());
        lemma_within_tail(spec_hostname(r, r.len()), r, s);
    }
    lemma_future_extension_within(s);
}

/// What is left of `s` after the suffixes that it starts with.
pub open spec fn after_suffixes(s: Seq<u8>) -> Seq<u8>
    decreases s.len(),
{
    match spec_suffix(s) {
        Parse::Done(r, _) => if r.len() < s.len() {
            after_suffixes(r)
        } else {
            s
        },
        _ => s,
    }
}

/// What is left after the suffixes is a tail of the input.
pub proof fn lemma_after_suffixes_is_tail(s: Seq<u8>)
    ensures
        is_tail(after_suffixes(s), s),
    decreases s.len(),
{
    lemma_skip_is_tail(s, 0);
    lemma_suffix_within(s);
    if let Parse::Done(r, _) = spec_suffix(s) {
        lemma_after_suffixes_is_tail(r);
        lemma_tail_of_tail(after_suffixes(r), r, s);
    }
}

fn service_provider_span<'a>(input: &'a [u8]) -> (r: IResult<'a, (&'a [u8], usize)>)
    ensures
        yields(r, spec_service_provider_span(input@)),
{
    let (rest, _) = provider_lead(input)?;
    hostname_span(rest)
}

/// One suffix of a telephone number, as the bytes that it takes.
pub fn suffix<'a>(input: &'a [u8]) -> (r: IResult<'a, &'a [u8]>)
    ensures
        yields(r, spec_suffix(input@)),
{
    proof {
        lemma_suffix_within(input@);
        lemma_area_specifier_within(input@);
        lemma_future_extension_within(input@);
        lemma_provider_lead_within(input@);
        if let Parse::Done(r, _) = spec_provider_lead(input@) {
            lemma_hostname_within(r, r.len());
            lemma_within_tail(spec_hostname(r, r.len()), r, input@);
        }
    }
    match area_specifier(input) {
        Ok((rest, _)) => {
            return Ok((rest, consumed(input, rest)));
        },
        Err(Failure::Error(_, _)) => {},
        Err(e) => {
            return Err(e);
        },
    }
    match service_provider_span(input) {
        Ok((rest, _)) => {
            return Ok((rest, consumed(input, rest)));
        },
        Err(Failure::Error(_, _)) => {},
        Err(e) => {
            return Err(e);
        },
    }
    match future_extension(input) {
        Ok((rest, _)) => Ok((rest, consumed(input, rest))),
        Err(Failure::Error(_, _)) => Err(Failure::Error(input, ErrorKind::Alt)),
        Err(e) => Err(e),
    }
}

/// Skips the suffixes that `input` starts with.
fn skip_suffixes<'a>(input: &'a [u8]) -> (rest: &'a [u8])
    ensures
        rest@ == after_suffixes(input@),
{
    let mut rest = input;
    loop
        invariant
            after_suffixes(input@) == after_suffixes(rest@),
        decreases rest@.len(),
    {
        proof {
            lemma_suffix_within(rest@);
        }
        match suffix(rest) {
            Ok((after, _)) => {
                rest = after;
            },
            Err(_) => {
                return rest;
            },
        }
    }
}

/// The plain digits of a telephone number: `DIGIT / visual-separator`.
pub open spec fn spec_is_phonedigit(i: u8) -> bool {
    is_digit(i) || is_visual_separator(i)
}

#[verifier::when_used_as_spec(spec_is_phonedigit)]
pub fn is_phonedigit(i: u8) -> (r: bool)
    ensures
        r == spec_is_phonedigit(i),
{
    is_digit(i) || is_visual_separator(i)
}

/// `base-phone-number = 1*phonedigit`, as the bytes of the number.
pub open spec fn spec_base_phone_number(s: Seq<u8>) -> Parse<Seq<u8>> {
    spec_phonedigit(s).and_then(|r: Seq<u8>, b: u8| many(s, |i: u8| is_phonedigit(i)))
}

/// The digits of a global telephone number.
pub fn base_phone_number<'a>(input: &'a [u8]) -> (r: IResult<'a, &'a [u8]>)
    ensures
        yields(r, spec_base_phone_number(input@)),
{
    let _ = phonedigit(input)?;
    many_of(input, is_phonedigit, Ghost(|i: u8| is_phonedigit(i)))
}

/// `[isdn-subaddress] [post-dial]`, as what is left behind them.
pub open spec fn spec_number_options(s: Seq<u8>) -> Parse<()> {
    spec_isdn_subaddress(s).optional(s).and_then(
        |r: Seq<u8>, isdn: Option<u8>| spec_post_dial(r).optional(r).map(|p: Option<u8>| ()),
    )
}

/// The optional parts of a number stay within their input.
pub proof fn lemma_number_options_within(s: Seq<u8>)
    ensures
        spec_number_options(s).within(s),
{
    lemma_skip_is_tail(s, 0);
    lemma_isdn_post_dial_within(s);
    if let Parse::Done(r, _) = spec_isdn_subaddress(s).optional(s) {
        lemma_skip_is_tail(r, 0);
        lemma_isdn_post_dial_within(r);
        lemma_within_tail(spec_post_dial(r).optional(r), r, s);
    }
}

fn number_options<'a>(input: &'a [u8]) -> (r: IResult<'a, ()>)
    ensures
        yields(r, spec_number_options(input@)),
{
    let rest = match isdn_subaddress(input) {
        Ok((after, _)) => after,
        Err(Failure::Error(_, _)) => input,
        Err(e) => {
            return Err(e);
        },
    };
    match post_dial(rest) {
        Ok((after, _)) => Ok((after, ())),
        Err(Failure::Error(_, _)) => Ok((rest, ())),
        Err(e) => Err(e),
    }
}

/// `global-phone-number = "+" base-phone-number [isdn-subaddress]
/// [post-dial] *(area-specifier / service-provider / future-extension)`, as
/// the bytes of the whole number.
#[verifier::opaque]
pub open spec fn spec_global_phone_number(s: Seq<u8>) -> Parse<Seq<u8>> {
    the_byte(s, '+' as u8).and_then(
        |r1: Seq<u8>, plus: u8|
            spec_base_phone_number(r1).and_then(
                |r2: Seq<u8>, digits: Seq<u8>|
                    spec_number_options(r2).and_then(
                        |r3: Seq<u8>, unit: ()|
                            Parse::Done(
                                after_suffixes(r3),
                                s.take(s.len() - after_suffixes(r3).len()),
                            ),
                    ),
            ),
    )
}

/// A global telephone number.
pub fn global_phone_number<'a>(input: &'a [u8]) -> (r: IResult<'a, &'a [u8]>)
    ensures
        yields(r, spec_global_phone_number(input@)),
{
    reveal(spec_global_phone_number);
    let (r1, _) = byte(input, '+' as u8)?;
    let (r2, _) = base_phone_number(r1)?;
    let (r3, _) = number_options(r2)?;
    let rest = skip_suffixes(r3);
    proof {
        lemma_bytes_within(input@, |i: u8| true, '+' as u8);
        lemma_dial_within(r1@);
        lemma_bytes_within(r1@, |i: u8| is_phonedigit(i), 0);
        lemma_tail_of_tail(r2@, r1@, input@);
        lemma_number_options_within(r2@);
        lemma_tail_of_tail(r3@, r2@, input@);
        lemma_after_suffixes_is_tail(r3@);
        lemma_tail_of_tail(rest@, r3@, input@);
    }
    Ok((rest, consumed(input, rest)))
}

/// `local-phone-number`: a character that can be dialled, `[isdn-subaddress]
/// [post-dial]`, an area specifier, and the suffixes behind it, as the bytes
/// of the whole number.
#[verifier::opaque]
pub open spec fn spec_local_phone_number(s: Seq<u8>) -> Parse<Seq<u8>> {
    spec_dial_character(s).and_then(
        |r1: Seq<u8>, first: u8|
            spec_number_options(r1).and_then(
                |r2: Seq<u8>, unit: ()|
                    spec_area_specifier(r2).and_then(
                        |r3: Seq<u8>, area: PhoneContextIdentView|
                            Parse::Done(
                                after_suffixes(r3),
                                s.take(s.len() - after_suffixes(r3).len()),
                            ),
                    ),
            ),
    )
}

/// A local telephone number.
pub fn local_phone_number<'a>(input: &'a [u8]) -> (r: IResult<'a, &'a [u8]>)
    ensures
        yields(r, spec_local_phone_number(input@)),
{
    reveal(spec_local_phone_number);
    let (r1, _) = dial_character(input)?;
    let (r2, _) = number_options(r1)?;
    let (r3, _) = area_specifier(r2)?;
    let rest = skip_suffixes(r3);
    proof {
        lemma_dial_within(input@);
        lemma_number_options_within(r1@);
        lemma_tail_of_tail(r2@, r1@, input@);
        lemma_area_specifier_within(r2@);
        lemma_tail_of_tail(r3@, r2@, input@);
        lemma_after_suffixes_is_tail(r3@);
        lemma_tail_of_tail(rest@, r3@, input@);
    }
    Ok((rest, consumed(input, rest)))
}

/// `telephone-subscriber = global-phone-number / local-phone-number`.
pub open spec fn spec_telephone_subscriber(s: Seq<u8>) -> Parse<Seq<u8>> {
    spec_global_phone_number(s).or(spec_local_phone_number(s)).or(Parse::Error(s, ErrorKind::Alt))
}

/// A telephone number, as the bytes that it takes.
pub fn telephone_subscriber<'a>(input: &'a [u8]) -> (r: IResult<'a, &'a [u8]>)
    ensures
        yields(r, spec_telephone_subscriber(input@)),
{
    match global_phone_number(input) {
        Err(Failure::Error(_, _)) => match local_phone_number(input) {
            Err(Failure::Error(_, _)) => Err(Failure::Error(input, ErrorKind::Alt)),
            other => other,
        },
        other => other,
    }
}

/// The plain bytes of a user name: `unreserved / user-unreserved`.
pub open spec fn spec_is_user_byte(i: u8) -> bool {
    is_unreserved(i) || is_user_unreserved(i)
}

#[verifier::when_used_as_spec(spec_is_user_byte)]
pub fn is_user_byte(i: u8) -> (r: bool)
    ensures
        r == spec_is_user_byte(i),
{
    is_unreserved(i) || is_user_unreserved(i)
}

/// The plain bytes of a password: `unreserved / "&" / "=" / "+" / "$" / ","`.
pub open spec fn spec_is_password_byte(i: u8) -> bool {
    is_unreserved(i) || i == '&' as u8 || i == '=' as u8 || i == '+' as u8 || i == '$' as u8 || i
        == ',' as u8
}

#[verifier::when_used_as_spec(spec_is_password_byte)]
pub fn is_password_byte(i: u8) -> (r: bool)
    ensures
        r == spec_is_password_byte(i),
{
    is_unreserved(i) || i == '&' as u8 || i == '=' as u8 || i == '+' as u8 || i == '$' as u8 || i
        == ',' as u8
}

/// `user = 1*( unreserved / escaped / user-unreserved )`.
pub open spec fn spec_user(s: Seq<u8>) -> Parse<Seq<u8>> {
    elements1(s, |i: u8| is_user_byte(i))
}

/// A user name.
pub fn user<'a>(input: &'a [u8]) -> (r: IResult<'a, &'a [u8]>)
    ensures
        yields(r, spec_user(input@)),
{
    let _ = element_of(input, is_user_byte, Ghost(|i: u8| is_user_byte(i)))?;
    let n = count_elements(input, &is_user_byte, Ghost(|i: u8| is_user_byte(i)));
    Ok((&input[n..input.len()], &input[0..n]))
}

/// `password = *( unreserved / escaped / "&" / "=" / "+" / "$" / "," )`.
pub open spec fn spec_password(s: Seq<u8>) -> Parse<Seq<u8>> {
    elements(s, |i: u8| is_password_byte(i))
}

/// A password, which may be empty.
pub fn password<'a>(input: &'a [u8]) -> (r: IResult<'a, &'a [u8]>)
    ensures
        yields(r, spec_password(input@)),
{
    let n = count_elements(input, &is_password_byte, Ghost(|i: u8| is_password_byte(i)));
    Ok((&input[n..input.len()], &input[0..n]))
}

/// Who a URI names.
#[derive(Debug, PartialEq, Eq, Clone, Copy)]
pub enum Identity<'a> {
    User(&'a [u8]),
    TelephoneSubscriber,
}

/// The value of an [`Identity`].
pub enum IdentityView {
    User(Seq<u8>),
    TelephoneSubscriber,
}

impl<'a> View for Identity<'a> {
    type V = IdentityView;

    open spec fn view(&self) -> IdentityView {
        match *self {
            Identity::User(u) => IdentityView::User(u@),
            Identity::TelephoneSubscriber => IdentityView::TelephoneSubscriber,
        }
    }
}

/// The user part of a URI.
#[derive(Debug, PartialEq, Eq, Clone, Copy)]
pub struct UserInfo<'a> {
    pub identity: Identity<'a>,
    pub password: Option<&'a [u8]>,
}

/// The value of a [`UserInfo`].
pub struct UserInfoView {
    pub identity: IdentityView,
    pub password: Option<Seq<u8>>,
}

impl<'a> View for UserInfo<'a> {
    type V = UserInfoView;

    open spec fn view(&self) -> UserInfoView {
        UserInfoView {
            identity: self.identity@,
            password: match self.password {
                Some(p) => Some(p@),
                None => None,
            },
        }
    }
}

/// `user / telephone-subscriber`: a user name comes first.
pub open spec fn spec_identity(s: Seq<u8>) -> Parse<IdentityView> {
    spec_user(s).map(|u: Seq<u8>| IdentityView::User(u)).or(
        spec_telephone_subscriber(s).map(|t: Seq<u8>| IdentityView::TelephoneSubscriber),
    ).or(Parse::Error(s, ErrorKind::Alt))
}

/// `":" password`.
pub open spec fn spec_colon_password(s: Seq<u8>) -> Parse<Seq<u8>> {
    the_byte(s, ':' as u8).and_then(|r: Seq<u8>, colon: u8| spec_password(r))
}

/// `userinfo = ( user / telephone-subscriber ) [ ":" password ] "@"`.
pub open spec fn spec_userinfo(s: Seq<u8>) -> Parse<UserInfoView> {
    spec_identity(s).and_then(
        |r1: Seq<u8>, identity: IdentityView|
            spec_colon_password(r1).optional(r1).and_then(
                |r2: Seq<u8>, password: Option<Seq<u8>>|
                    the_byte(r2, '@' as u8).map(
                        |at: u8| (UserInfoView { identity: identity, password: password }),
                    ),
            ),
    )
}

fn identity<'a>(input: &'a [u8]) -> (r: IResult<'a, Identity<'a>>)
    ensures
        yields(r, spec_identity(input@)),
{
    match user(input) {
        Ok((rest, u)) => Ok((rest, Identity::User(u))),
        Err(Failure::Error(_, _)) => match telephone_subscriber(input) {
            Ok((rest, _)) => Ok((rest, Identity::TelephoneSubscriber)),
            Err(Failure::Error(_, _)) => Err(Failure::Error(input, ErrorKind::Alt)),
            Err(e) => Err(e),
        },
        Err(e) => Err(e),
    }
}

fn colon_password<'a>(input: &'a [u8]) -> (r: IResult<'a, &'a [u8]>)
    ensures
        yields(r, spec_colon_password(input@)),
{
    let (rest, _) = byte(input, ':' as u8)?;
    password(rest)
}

/// The user part of a URI, up to its `@`.
pub fn userinfo<'a>(input: &'a [u8]) -> (r: IResult<'a, UserInfo<'a>>)
    ensures
        yields(r, spec_userinfo(input@)),
{
    let (rest, identity) = identity(input)?;
    let (rest, password) = match colon_password(rest) {
        Ok((after, p)) => (after, Some(p)),
        Err(Failure::Error(_, _)) => (rest, None),
        Err(e) => {
            return Err(e);
        },
    };
    let (rest, _) = byte(rest, '@' as u8)?;
    Ok((rest, UserInfo { identity, password }))
}

/// A service provider stays within its input.
pub proof fn lemma_service_provider_within(s: Seq<u8>, cap: nat)
    ensures
        spec_service_provider(s, cap).within(s),
{
    reveal(spec_service_provider);
    lemma_provider_lead_within(s);
    if let Parse::Done(r, _) = spec_provider_lead(s) {
        lemma_hostname_within(r, cap);
        lemma_within_tail(spec_hostname(r, cap), r, s);
    }
}

/// A telephone number stays within its input.
pub proof fn lemma_telephone_subscriber_within(s: Seq<u8>)
    ensures
        spec_base_phone_number(s).within(s),
        spec_global_phone_number(s).within(s),
        spec_local_phone_number(s).within(s),
        spec_telephone_subscriber(s).within(s),
{
    reveal(spec_global_phone_number);
    reveal(spec_local_phone_number);
    lemma_skip_is_tail(s, 0);
    lemma_dial_within(s);
    lemma_bytes_within(s, |i: u8| is_phonedigit(i), '+' as u8);
    if let Parse::Done(r1, _) = the_byte(s, '+' as u8) {
        lemma_dial_within(r1);
        lemma_bytes_within(r1, |i: u8| is_phonedigit(i), 0);
        lemma_within_tail(spec_base_phone_number(r1), r1, s);
        if let Parse::Done(r2, _) = spec_base_phone_number(r1) {
            lemma_number_options_within(r2);
            lemma_within_tail(spec_number_options(r2), r2, s);
            if let Parse::Done(r3, _) = spec_number_options(r2) {
                lemma_after_suffixes_is_tail(r3);
                lemma_tail_of_tail(after_suffixes(r3), r3, s);
            }
        }
    }
    if let Parse::Done(r1, _) = spec_dial_character(s) {
        lemma_number_options_within(r1);
        lemma_within_tail(spec_number_options(r1), r1, s);
        if let Parse::Done(r2, _) = spec_number_options(r1) {
            lemma_area_specifier_within(r2);
            lemma_within_tail(spec_area_specifier(r2), r2, s);
            if let Parse::Done(r3, _) = spec_area_specifier(r2) {
                lemma_after_suffixes_is_tail(r3);
                lemma_tail_of_tail(after_suffixes(r3), r3, s);
            }
        }
    }
}

/// The user part of a URI stays within its input.
pub proof fn lemma_userinfo_within(s: Seq<u8>)
    ensures
        spec_user(s).within(s),
        spec_password(s).within(s),
        spec_identity(s).within(s),
        spec_userinfo(s).within(s),
{
    lemma_skip_is_tail(s, 0);
    lemma_characters_within(s, |i: u8| is_user_byte(i));
    lemma_characters_within(s, |i: u8| is_password_byte(i));
    lemma_telephone_subscriber_within(s);
    if let Parse::Done(r1, _) = spec_identity(s) {
        lemma_skip_is_tail(r1, 0);
        lemma_bytes_within(r1, |i: u8| true, ':' as u8);
        if let Parse::Done(r, _) = the_byte(r1, ':' as u8) {
            lemma_characters_within(r, |i: u8| is_password_byte(i));
            lemma_within_tail(spec_password(r), r, r1);
        }
        lemma_within_tail(spec_colon_password(r1).optional(r1), r1, s);
        if let Parse::Done(r2, _) = spec_colon_password(r1).optional(r1) {
            lemma_bytes_within(r2, |i: u8| true, '@' as u8);
            lemma_within_tail(the_byte(r2, '@' as u8), r2, s);
        }
    }
}

} // verus!
