//! The grammar rules, from single bytes up to parameter lists.
//!
//! This module holds the character classes and, for each of them, the
//! recogniser of a run of its bytes; the modules below hold the rules.

pub mod outcome;
pub mod digit;
pub mod ip;
pub mod ch;
pub mod host;
pub mod uri_headers;
pub mod uri_params;
pub mod userinfo;


use vstd::prelude::*;
use crate::msg::abnf::outcome::{byte_where, map_byte, run, take_while, yields, IResult, Parse};

verus! {

/// `ALPHA`.
pub open spec fn spec_is_alpha(i: u8) -> bool {
    ('a' as u8 <= i <= 'z' as u8) || ('A' as u8 <= i <= 'Z' as u8)
}

/// `DIGIT`.
pub open spec fn spec_is_digit(i: u8) -> bool {
    '0' as u8 <= i <= '9' as u8
}

/// `HEXDIG`, in either case.
pub open spec fn spec_is_hex_digit(i: u8) -> bool {
    spec_is_digit(i) || ('a' as u8 <= i <= 'f' as u8) || ('A' as u8 <= i <= 'F' as u8)
}

/// `alphanum = ALPHA / DIGIT`.
pub open spec fn spec_is_alphanum(i: u8) -> bool {
    spec_is_alpha(i) || spec_is_digit(i)
}

/// `mark = "-" / "_" / "." / "!" / "~" / "*" / "'" / "(" / ")"`.
pub open spec fn spec_is_mark(i: u8) -> bool {
    i == '-' as u8 || i == '_' as u8 || i == '.' as u8 || i == '!' as u8 || i == '~' as u8 || i
        == '*' as u8 || i == '\'' as u8 || i == '(' as u8 || i == ')' as u8
}

/// `reserved = ";" / "/" / "?" / ":" / "@" / "&" / "=" / "+" / "$" / ","`.
pub open spec fn spec_is_reserved(i: u8) -> bool {
    i == ';' as u8 || i == '/' as u8 || i == '?' as u8 || i == ':' as u8 || i == '@' as u8 || i
        == '&' as u8 || i == '=' as u8 || i == '+' as u8 || i == '$' as u8 || i == ',' as u8
}

/// `unreserved = alphanum / mark`.
pub open spec fn spec_is_unreserved(i: u8) -> bool {
    spec_is_alphanum(i) || spec_is_mark(i)
}

/// `user-unreserved = "&" / "=" / "+" / "$" / "," / ";" / "?" / "/"`.
pub open spec fn spec_is_user_unreserved(i: u8) -> bool {
    i == '&' as u8 || i == '=' as u8 || i == '+' as u8 || i == '$' as u8 || i == ',' as u8 || i
        == ';' as u8 || i == '?' as u8 || i == '/' as u8
}

/// `hnv-unreserved = "[" / "]" / "/" / "?" / ":" / "+" / "$"`.
pub open spec fn spec_is_hnv_unreserved(i: u8) -> bool {
    i == '[' as u8 || i == ']' as u8 || i == '/' as u8 || i == '?' as u8 || i == ':' as u8 || i
        == '+' as u8 || i == '$' as u8
}

/// The bytes of a `token`: `alphanum` and ``- . ! % * _ + ` ' ~``.
pub open spec fn spec_is_token(i: u8) -> bool {
    spec_is_alphanum(i) || i == '-' as u8 || i == '.' as u8 || i == '!' as u8 || i == '%' as u8
        || i == '*' as u8 || i == '_' as u8 || i == '+' as u8 || i == '`' as u8 || i
        == '\'' as u8 || i == '~' as u8
}

/// The bytes of a `word`: those of a `token` and `( ) < > : \ " / [ ] ? { }`.
pub open spec fn spec_is_word(i: u8) -> bool {
    spec_is_token(i) || i == '(' as u8 || i == ')' as u8 || i == '<' as u8 || i == '>' as u8
        || i == ':' as u8 || i == '\\' as u8 || i == '"' as u8 || i == '/' as u8 || i
        == '[' as u8 || i == ']' as u8 || i == '?' as u8 || i == '{' as u8 || i == '}' as u8
}

#[verifier::when_used_as_spec(spec_is_alpha)]
pub fn is_alpha(i: u8) -> (r: bool)
    ensures
        r == spec_is_alpha(i),
{
    ('a' as u8 <= i && i <= 'z' as u8) || ('A' as u8 <= i && i <= 'Z' as u8)
}

#[verifier::when_used_as_spec(spec_is_digit)]
pub fn is_digit(i: u8) -> (r: bool)
    ensures
        r == spec_is_digit(i),
{
    '0' as u8 <= i && i <= '9' as u8
}

#[verifier::when_used_as_spec(spec_is_hex_digit)]
pub fn is_hex_digit(i: u8) -> (r: bool)
    ensures
        r == spec_is_hex_digit(i),
{
    is_digit(i) || ('a' as u8 <= i && i <= 'f' as u8) || ('A' as u8 <= i && i <= 'F' as u8)
}

#[verifier::when_used_as_spec(spec_is_alphanum)]
pub fn is_alphanum(i: u8) -> (r: bool)
    ensures
        r == spec_is_alphanum(i),
{
    is_alpha(i) || is_digit(i)
}

#[verifier::when_used_as_spec(spec_is_mark)]
pub fn is_mark(i: u8) -> (r: bool)
    ensures
        r == spec_is_mark(i),
{
    i == '-' as u8 || i == '_' as u8 || i == '.' as u8 || i == '!' as u8 || i == '~' as u8 || i
        == '*' as u8 || i == '\'' as u8 || i == '(' as u8 || i == ')' as u8
}

#[verifier::when_used_as_spec(spec_is_reserved)]
pub fn is_reserved(i: u8) -> (r: bool)
    ensures
        r == spec_is_reserved(i),
{
    i == ';' as u8 || i == '/' as u8 || i == '?' as u8 || i == ':' as u8 || i == '@' as u8 || i
        == '&' as u8 || i == '=' as u8 || i == '+' as u8 || i == '$' as u8 || i == ',' as u8
}

#[verifier::when_used_as_spec(spec_is_unreserved)]
pub fn is_unreserved(i: u8) -> (r: bool)
    ensures
        r == spec_is_unreserved(i),
{
    is_alphanum(i) || is_mark(i)
}

#[verifier::when_used_as_spec(spec_is_user_unreserved)]
pub fn is_user_unreserved(i: u8) -> (r: bool)
    ensures
        r == spec_is_user_unreserved(i),
{
    i == '&' as u8 || i == '=' as u8 || i == '+' as u8 || i == '$' as u8 || i == ',' as u8 || i
        == ';' as u8 || i == '?' as u8 || i == '/' as u8
}

#[verifier::when_used_as_spec(spec_is_hnv_unreserved)]
pub fn is_hnv_unreserved(i: u8) -> (r: bool)
    ensures
        r == spec_is_hnv_unreserved(i),
{
    i == '[' as u8 || i == ']' as u8 || i == '/' as u8 || i == '?' as u8 || i == ':' as u8 || i
        == '+' as u8 || i == '$' as u8
}

#[verifier::when_used_as_spec(spec_is_token)]
pub fn is_token(i: u8) -> (r: bool)
    ensures
        r == spec_is_token(i),
{
    is_alphanum(i) || i == '-' as u8 || i == '.' as u8 || i == '!' as u8 || i == '%' as u8 || i
        == '*' as u8 || i == '_' as u8 || i == '+' as u8 || i == '`' as u8 || i == '\'' as u8
        || i == '~' as u8
}

#[verifier::when_used_as_spec(spec_is_word)]
pub fn is_word(i: u8) -> (r: bool)
    ensures
        r == spec_is_word(i),
{
    is_token(i) || i == '(' as u8 || i == ')' as u8 || i == '<' as u8 || i == '>' as u8 || i
        == ':' as u8 || i == '\\' as u8 || i == '"' as u8 || i == '/' as u8 || i == '[' as u8
        || i == ']' as u8 || i == '?' as u8 || i == '{' as u8 || i == '}' as u8
}

/// The longest run of `mark` bytes at the start of the input.
pub fn mark<'a>(input: &'a [u8]) -> (r: IResult<'a, &'a [u8]>)
    ensures
        yields(r, run(input@, |i: u8| is_mark(i))),
{
    take_while(input, is_mark, Ghost(|i: u8| is_mark(i)))
}

/// The longest run of `reserved` bytes at the start of the input.
pub fn reserved<'a>(input: &'a [u8]) -> (r: IResult<'a, &'a [u8]>)
    ensures
        yields(r, run(input@, |i: u8| is_reserved(i))),
{
    take_while(input, is_reserved, Ghost(|i: u8| is_reserved(i)))
}

/// The longest run of `unreserved` bytes at the start of the input.
pub fn unreserved<'a>(input: &'a [u8]) -> (r: IResult<'a, &'a [u8]>)
    ensures
        yields(r, run(input@, |i: u8| is_unreserved(i))),
{
    take_while(input, is_unreserved, Ghost(|i: u8| is_unreserved(i)))
}

/// The longest run of `user-unreserved` bytes at the start of the input.
pub fn user_unreserved<'a>(input: &'a [u8]) -> (r: IResult<'a, &'a [u8]>)
    ensures
        yields(r, run(input@, |i: u8| is_user_unreserved(i))),
{
    take_while(input, is_user_unreserved, Ghost(|i: u8| is_user_unreserved(i)))
}

/// The longest run of `hnv-unreserved` bytes at the start of the input.
pub fn hnv_unreserved<'a>(input: &'a [u8]) -> (r: IResult<'a, &'a [u8]>)
    ensures
        yields(r, run(input@, |i: u8| is_hnv_unreserved(i))),
{
    take_while(input, is_hnv_unreserved, Ghost(|i: u8| is_hnv_unreserved(i)))
}

/// The longest run of `token` bytes at the start of the input, which may be
/// empty.
pub fn token<'a>(input: &'a [u8]) -> (r: IResult<'a, &'a [u8]>)
    ensures
        yields(r, run(input@, |i: u8| is_token(i))),
{
    take_while(input, is_token, Ghost(|i: u8| is_token(i)))
}

/// The longest run of `word` bytes at the start of the input, which may be
/// empty.
pub fn word<'a>(input: &'a [u8]) -> (r: IResult<'a, &'a [u8]>)
    ensures
        yields(r, run(input@, |i: u8| is_word(i))),
{
    take_while(input, is_word, Ghost(|i: u8| is_word(i)))
}

/// One decimal digit on a streaming input, as its value.
pub open spec fn spec_single_digit(s: Seq<u8>) -> Parse<u8> {
    byte_where(s, |i: u8| is_digit(i)).map(|i: u8| (i - '0' as u8) as u8)
}

/// One decimal digit, as its value.
pub fn single_digit<'a>(input: &'a [u8]) -> (r: IResult<'a, u8>)
    ensures
        yields(r, spec_single_digit(input@)),
{
    let (rest, c) = map_byte(input, is_digit, Ghost(|i: u8| is_digit(i)))?;
    Ok((rest, c - '0' as u8))
}

} // verus!
