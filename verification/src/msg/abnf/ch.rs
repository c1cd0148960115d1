//! Single characters of the grammar's classes, and tokens made of them.

use vstd::prelude::*;
use vstd::string::{StringSliceAdditionalSpecFns, StrSliceExecFns};
use vstd::utf8::{decode_utf8, encode_utf8_decode_utf8, valid_utf8};
use crate::msg::abnf::{is_alpha, is_alphanum, is_mark, is_token, is_user_unreserved, is_word};
use crate::msg::abnf::digit::{lemma_digits_within, single_hex, spec_single_hex};
use crate::msg::abnf::outcome::{
    byte, byte_where, lemma_bytes_within, lemma_skip_is_tail, lemma_within_tail, map_byte, one_byte,
    run1, take_while1, the_byte, yields, ErrorKind, Failure, IResult, Parse,
};

verus! {

/// One byte of `ALPHA`.
pub fn alpha<'a>(input: &'a [u8]) -> (r: IResult<'a, u8>)
    ensures
        yields(r, byte_where(input@, |i: u8| is_alpha(i))),
{
    map_byte(input, is_alpha, Ghost(|i: u8| is_alpha(i)))
}

/// One byte of `alphanum`.
pub fn alphanum<'a>(input: &'a [u8]) -> (r: IResult<'a, u8>)
    ensures
        yields(r, byte_where(input@, |i: u8| is_alphanum(i))),
{
    map_byte(input, is_alphanum, Ghost(|i: u8| is_alphanum(i)))
}

/// One byte of `mark`.
pub fn mark<'a>(input: &'a [u8]) -> (r: IResult<'a, u8>)
    ensures
        yields(r, byte_where(input@, |i: u8| is_mark(i))),
{
    map_byte(input, is_mark, Ghost(|i: u8| is_mark(i)))
}

/// `unreserved = alphanum / mark`, one byte: `Alt` where it is neither.
pub open spec fn spec_unreserved(s: Seq<u8>) -> Parse<u8> {
    byte_where(s, |i: u8| is_alphanum(i)).or(byte_where(s, |i: u8| is_mark(i))).or(
        Parse::Error(s, ErrorKind::Alt),
    )
}

/// One byte of `unreserved`.
pub fn unreserved<'a>(input: &'a [u8]) -> (r: IResult<'a, u8>)
    ensures
        yields(r, spec_unreserved(input@)),
{
    match alphanum(input) {
        Err(Failure::Error(_, _)) => match mark(input) {
            Err(Failure::Error(_, _)) => Err(Failure::Error(input, ErrorKind::Alt)),
            other => other,
        },
        other => other,
    }
}

/// `escaped = "%" HEXDIG HEXDIG`: three bytes of input for one byte of value.
pub open spec fn spec_escaped(s: Seq<u8>) -> Parse<u8> {
    the_byte(s, '%' as u8).and_then(
        |r1: Seq<u8>, percent: u8|
            spec_single_hex(r1).and_then(
                |r2: Seq<u8>, a: u8| spec_single_hex(r2).map(|b: u8| (a * 16 + b) as u8),
            ),
    )
}

/// An escape takes exactly three bytes of input for its one byte of value.
pub proof fn lemma_escaped_takes_three(s: Seq<u8>)
    requires
        spec_escaped(s) is Done,
    ensures
        s.len() >= 3,
        spec_escaped(s)->Done_0 == s.skip(3),
        s[0] == '%' as u8,
{
    assert(s.skip(1).skip(1).skip(1) =~= s.skip(3));
}

/// A percent sign and two hexadecimal digits, as the byte they stand for.
pub fn escaped<'a>(input: &'a [u8]) -> (r: IResult<'a, u8>)
    ensures
        yields(r, spec_escaped(input@)),
{
    let (rest, _) = byte(input, '%' as u8)?;
    let (rest, a) = single_hex(rest)?;
    let (rest, b) = single_hex(rest)?;
    Ok((rest, a * 16 + b))
}

/// One byte of `user-unreserved`.
pub fn user_unreserved<'a>(input: &'a [u8]) -> (r: IResult<'a, u8>)
    ensures
        yields(r, byte_where(input@, |i: u8| is_user_unreserved(i))),
{
    map_byte(input, is_user_unreserved, Ghost(|i: u8| is_user_unreserved(i)))
}

/// `token`: a run of at least one token byte.
pub fn token<'a>(input: &'a [u8]) -> (r: IResult<'a, &'a [u8]>)
    ensures
        yields(r, run1(input@, |i: u8| is_token(i))),
{
    take_while1(input, is_token, Ghost(|i: u8| is_token(i)))
}

/// `word`: a run of at least one word byte.
pub fn word<'a>(input: &'a [u8]) -> (r: IResult<'a, &'a [u8]>)
    ensures
        yields(r, run1(input@, |i: u8| is_word(i))),
{
    take_while1(input, is_word, Ghost(|i: u8| is_word(i)))
}

/// The number of bytes that a UTF-8 character takes, by its first byte; zero
/// for a byte that starts no character.
pub open spec fn spec_utf8_char_width(b: u8) -> usize {
    if b <= 0x7f {
        1
    } else if b <= 0xc1 {
        0
    } else if b <= 0xdf {
        2
    } else if b <= 0xef {
        3
    } else if b <= 0xf4 {
        4
    } else {
        0
    }
}

/// The width of the UTF-8 character that starts with `b`.
#[verifier::when_used_as_spec(spec_utf8_char_width)]
pub fn utf8_char_width(b: u8) -> (w: usize)
    ensures
        w == spec_utf8_char_width(b),
{
    if b <= 0x7f {
        1
    } else if b <= 0xc1 {
        0
    } else if b <= 0xdf {
        2
    } else if b <= 0xef {
        3
    } else if b <= 0xf4 {
        4
    } else {
        0
    }
}

/// One UTF-8 character. A character of one byte is taken as it is; one of
/// more bytes must be there in full and well formed, else the input is
/// turned down with `Char`.
pub open spec fn spec_utf8(s: Seq<u8>) -> Parse<char> {
    if s.len() == 0 {
        Parse::Incomplete(1)
    } else {
        let w = utf8_char_width(s[0]);
        if w == 1 {
            Parse::Done(s.skip(1), s[0] as char)
        } else if w >= 2 && s.len() >= w && valid_utf8(s.take(w as int)) {
            Parse::Done(s.skip(w as int), decode_utf8(s.take(w as int))[0])
        } else {
            Parse::Error(s, ErrorKind::Char)
        }
    }
}

/// A character takes from one to four bytes off the input.
pub proof fn lemma_utf8(s: Seq<u8>)
    requires
        spec_utf8(s) is Done,
    ensures
        ({
            let r = spec_utf8(s)->Done_0;
            let w = s.len() - r.len();
            1 <= w <= 4 && w <= s.len() && r == s.skip(w)
        }),
{
}

/// `std::str::from_utf8`, without the details of its error: the text that
/// `bytes` spell, where they are well-formed UTF-8, and nothing where they
/// are not. The text has these very bytes.
#[verifier::external_body]
pub(crate) fn text_of<'a>(bytes: &'a [u8]) -> (r: Option<&'a str>)
    ensures
        r is Some <==> valid_utf8(bytes@),
        r matches Some(text) ==> text.spec_bytes() == bytes@,
{
    std::str::from_utf8(bytes).ok()
}

/// One UTF-8 character.
pub fn utf8<'a>(input: &'a [u8]) -> (r: IResult<'a, char>)
    ensures
        yields(r, spec_utf8(input@)),
{
    let (rest, first) = one_byte(input)?;
    let w = utf8_char_width(first);
    if w == 1 {
        return Ok((rest, first as char));
    }
    if w == 0 || input.len() < w {
        return Err(Failure::Error(input, ErrorKind::Char));
    }
    match text_of(&input[0..w]) {
        Some(text) => {
            proof {
                encode_utf8_decode_utf8(text@);
            }
            let c = text.get_char(0);
            Ok((&input[w..input.len()], c))
        },
        None => Err(Failure::Error(input, ErrorKind::Char)),
    }
}

/// One element of a value that may hold escapes: a byte of `class`, or an
/// escape of three bytes; `Alt` where neither stands there.
pub open spec fn element(s: Seq<u8>, class: spec_fn(u8) -> bool) -> Parse<u8> {
    byte_where(s, class).or(spec_escaped(s)).or(Parse::Error(s, ErrorKind::Alt))
}

/// The length of the longest chain of elements at the start of `s`. A chain
/// ends where no whole element follows, be it at the end of the input.
pub open spec fn elements_len(s: Seq<u8>, class: spec_fn(u8) -> bool) -> nat
    decreases s.len(),
{
    match element(s, class) {
        Parse::Done(r, _) => if r.len() < s.len() {
            (s.len() - r.len()) as nat + elements_len(r, class)
        } else {
            0
        },
        _ => 0,
    }
}

/// `*element`: the longest chain of elements, which may be empty.
pub open spec fn elements(s: Seq<u8>, class: spec_fn(u8) -> bool) -> Parse<Seq<u8>> {
    let n = elements_len(s, class);
    Parse::Done(s.skip(n as int), s.take(n as int))
}

/// `1*element`: the failure of the first element, or the longest chain.
pub open spec fn elements1(s: Seq<u8>, class: spec_fn(u8) -> bool) -> Parse<Seq<u8>> {
    element(s, class).and_then(|r: Seq<u8>, b: u8| elements(s, class))
}

/// An element takes one byte or three.
pub proof fn lemma_element(s: Seq<u8>, class: spec_fn(u8) -> bool)
    requires
        element(s, class) is Done,
    ensures
        element(s, class)->Done_0 == s.skip(1) || element(s, class)->Done_0 == s.skip(3),
        element(s, class)->Done_0.len() < s.len(),
        s.len() >= 3 || element(s, class)->Done_0 == s.skip(1),
{
    if !(byte_where(s, class) is Done) {
        assert(s.skip(1).skip(1).skip(1) =~= s.skip(3));
    }
}

/// A chain of elements lies within the input.
pub proof fn lemma_elements_len(s: Seq<u8>, class: spec_fn(u8) -> bool)
    ensures
        elements_len(s, class) <= s.len(),
        element(s, class) is Done ==> elements_len(s, class) >= 1,
    decreases s.len(),
{
    if element(s, class) is Done {
        lemma_element(s, class);
        lemma_elements_len(element(s, class)->Done_0, class);
    }
}

/// Reads one element whose plain bytes are those that `f` accepts.
pub(crate) fn element_of<'a, F: Fn(u8) -> bool>(
    input: &'a [u8],
    f: F,
    Ghost(class): Ghost<spec_fn(u8) -> bool>,
) -> (r: IResult<'a, u8>)
    requires
        forall|b: u8| call_requires(f, (b,)),
        forall|b: u8, ok: bool| call_ensures(f, (b,), ok) ==> ok == class(b),
    ensures
        yields(r, element(input@, class)),
{
    match map_byte(input, f, Ghost(class)) {
        Err(Failure::Error(_, _)) => match escaped(input) {
            Err(Failure::Error(_, _)) => Err(Failure::Error(input, ErrorKind::Alt)),
            other => other,
        },
        other => other,
    }
}

/// Counts the bytes of the longest chain of elements at the start of `input`.
pub(crate) fn count_elements<F: Fn(u8) -> bool>(
    input: &[u8],
    f: &F,
    Ghost(class): Ghost<spec_fn(u8) -> bool>,
) -> (n: usize)
    requires
        forall|b: u8| call_requires(*f, (b,)),
        forall|b: u8, ok: bool| call_ensures(*f, (b,), ok) ==> ok == class(b),
    ensures
        n == elements_len(input@, class),
        n <= input@.len(),
{
    let ghost s = input@;
    let mut rest = input;
    let mut n: usize = 0;
    loop
        invariant
            s == input@,
            n <= s.len(),
            rest@ == s.skip(n as int),
            elements_len(s, class) == n + elements_len(rest@, class),
            forall|b: u8| call_requires(*f, (b,)),
            forall|b: u8, ok: bool| call_ensures(*f, (b,), ok) ==> ok == class(b),
        decreases rest@.len(),
    {
        match element_of(rest, f, Ghost(class)) {
            Ok((after, _)) => {
                proof {
                    lemma_element(rest@, class);
                    if after@ == rest@.skip(1) {
                        assert(s.skip(n as int).skip(1) =~= s.skip(n + 1));
                    } else {
                        assert(s.skip(n as int).skip(3) =~= s.skip(n + 3));
                    }
                }
                assert(rest@.len() == s.len() - n);
                n = input.len() - after.len();
                rest = after;
            },
            Err(_) => {
                return n;
            },
        }
    }
}

/// The rules of single characters and of chains of elements stay within
/// their input.
pub proof fn lemma_characters_within(s: Seq<u8>, class: spec_fn(u8) -> bool)
    ensures
        spec_unreserved(s).within(s),
        spec_escaped(s).within(s),
        spec_utf8(s).within(s),
        element(s, class).within(s),
        elements(s, class).within(s),
        elements1(s, class).within(s),
{
    lemma_skip_is_tail(s, 0);
    lemma_bytes_within(s, |i: u8| is_alphanum(i), '%' as u8);
    lemma_bytes_within(s, |i: u8| is_mark(i), 0);
    lemma_bytes_within(s, class, 0);
    if let Parse::Done(r1, _) = the_byte(s, '%' as u8) {
        lemma_digits_within(r1);
        lemma_within_tail(spec_single_hex(r1), r1, s);
        if let Parse::Done(r2, _) = spec_single_hex(r1) {
            lemma_digits_within(r2);
            lemma_within_tail(spec_single_hex(r2), r2, s);
        }
    }
    if spec_utf8(s) is Done {
        lemma_utf8(s);
        lemma_skip_is_tail(s, s.len() - spec_utf8(s)->Done_0.len());
    }
    lemma_elements_len(s, class);
    lemma_skip_is_tail(s, elements_len(s, class) as int);
}

} // verus!
