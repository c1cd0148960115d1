//! Reading a method.

use vstd::prelude::*;
use vstd::array::array_as_slice;
use vstd::slice::slice_subrange;
use crate::msg::abnf::{is_token, token};
use crate::msg::abnf::outcome::{
    keyword, lemma_bytes_within, lemma_keyword_within, lemma_skip_is_tail, run, tag, yields,
    ErrorKind, Failure, IResult, Parse,
};
use crate::msg::method::{
    ack_text, bye_text, cancel_text, fixed_text, invite_text, options_text, register_text, Method,
    MethodView,
};

verus! {

/// `Method = INVITEm / ACKm / OPTIONSm / BYEm / CANCELm / REGISTERm /
/// extension-method`: the six names in capitals are tried in the order
/// REGISTER, INVITE, ACK, CANCEL, BYE, OPTIONS, and the first that is no plain
/// mismatch decides; a run of token bytes is an extension.
pub open spec fn spec_method(s: Seq<u8>) -> Parse<MethodView> {
    keyword(s, register_text()).map(|t: Seq<u8>| MethodView::Register).or(
        keyword(s, invite_text()).map(|t: Seq<u8>| MethodView::Invite),
    ).or(keyword(s, ack_text()).map(|t: Seq<u8>| MethodView::Ack)).or(
        keyword(s, cancel_text()).map(|t: Seq<u8>| MethodView::Cancel),
    ).or(keyword(s, bye_text()).map(|t: Seq<u8>| MethodView::Bye)).or(
        keyword(s, options_text()).map(|t: Seq<u8>| MethodView::Options),
    ).or(run(s, |i: u8| is_token(i)).map(|t: Seq<u8>| MethodView::Token(t))).or(
        Parse::Error(s, ErrorKind::Alt),
    )
}

/// Reads the name of the fixed method `m`.
fn named<'a>(input: &'a [u8], m: Method<'a>) -> (r: IResult<'a, Method<'a>>)
    requires
        m@.is_fixed(),
    ensures
        yields(r, keyword(input@, m@.text()).map(|t: Seq<u8>| m@)),
{
    let (text, n) = fixed_text(m);
    let (rest, _) = tag(input, slice_subrange(array_as_slice(&text), 0, n))?;
    Ok((rest, m))
}

/// A method.
pub fn method<'a>(input: &'a [u8]) -> (r: IResult<'a, Method<'a>>)
    ensures
        yields(r, spec_method(input@)),
{
    match named(input, Method::Register) {
        Err(Failure::Error(_, _)) => {},
        other => {
            return other;
        },
    }
    match named(input, Method::Invite) {
        Err(Failure::Error(_, _)) => {},
        other => {
            return other;
        },
    }
    match named(input, Method::Ack) {
        Err(Failure::Error(_, _)) => {},
        other => {
            return other;
        },
    }
    match named(input, Method::Cancel) {
        Err(Failure::Error(_, _)) => {},
        other => {
            return other;
        },
    }
    match named(input, Method::Bye) {
        Err(Failure::Error(_, _)) => {},
        other => {
            return other;
        },
    }
    match named(input, Method::Options) {
        Err(Failure::Error(_, _)) => {},
        other => {
            return other;
        },
    }
    match token(input) {
        Ok((rest, t)) => Ok((rest, Method::Token(t))),
        Err(Failure::Error(_, _)) => Err(Failure::Error(input, ErrorKind::Alt)),
        Err(e) => Err(e),
    }
}

/// A method stays within its input.
pub proof fn lemma_method_within(s: Seq<u8>)
    ensures
        spec_method(s).within(s),
{
    lemma_skip_is_tail(s, 0);
    lemma_keyword_within(s, register_text());
    lemma_keyword_within(s, invite_text());
    lemma_keyword_within(s, ack_text());
    lemma_keyword_within(s, cancel_text());
    lemma_keyword_within(s, bye_text());
    lemma_keyword_within(s, options_text());
    lemma_bytes_within(s, |i: u8| is_token(i), 0);
}

} // verus!
