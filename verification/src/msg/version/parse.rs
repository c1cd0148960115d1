//! Reading a version.

use vstd::prelude::*;
use crate::msg::abnf::{is_digit, single_digit, spec_single_digit};
use crate::msg::abnf::outcome::{
    character, keyword_no_case, lemma_bytes_within, lemma_keyword_within, lemma_within_tail,
    tag_no_case, the_char, yields, IResult, Parse,
};
use crate::msg::version::Version;

verus! {

/// `SIP-Version = "SIP" "/" DIGIT "." DIGIT`, the letters in either case.
pub open spec fn spec_version(s: Seq<u8>) -> Parse<Version> {
    keyword_no_case(s, seq!['S' as u8, 'I' as u8, 'P' as u8]).and_then(
        |r1: Seq<u8>, sip: Seq<u8>|
            the_char(r1, '/' as u8).and_then(
                |r2: Seq<u8>, slash: u8|
                    spec_single_digit(r2).and_then(
                        |r3: Seq<u8>, major: u8|
                            the_char(r3, '.' as u8).and_then(
                                |r4: Seq<u8>, dot: u8|
                                    spec_single_digit(r4).map(|minor: u8| Version(major, minor)),
                            ),
                    ),
            ),
    )
}

/// A protocol version.
pub fn version<'a>(input: &'a [u8]) -> (r: IResult<'a, Version>)
    ensures
        yields(r, spec_version(input@)),
{
    let sip = ['S' as u8, 'I' as u8, 'P' as u8];
    assert(sip@ =~= seq!['S' as u8, 'I' as u8, 'P' as u8]);
    let (rest, _) = tag_no_case(input, &sip)?;
    let (rest, _) = character(rest, '/' as u8)?;
    let (rest, major) = single_digit(rest)?;
    let (rest, _) = character(rest, '.' as u8)?;
    let (rest, minor) = single_digit(rest)?;
    Ok((rest, Version(major, minor)))
}

/// A version stays within its input.
pub proof fn lemma_version_within(s: Seq<u8>)
    ensures
        spec_version(s).within(s),
{
    let sip = seq!['S' as u8, 'I' as u8, 'P' as u8];
    let digit = |i: u8| is_digit(i);
    lemma_keyword_within(s, sip);
    if let Parse::Done(r1, _) = keyword_no_case(s, sip) {
        lemma_bytes_within(r1, digit, '/' as u8);
        lemma_within_tail(the_char(r1, '/' as u8), r1, s);
        if let Parse::Done(r2, _) = the_char(r1, '/' as u8) {
            lemma_bytes_within(r2, digit, 0);
            lemma_within_tail(spec_single_digit(r2), r2, s);
            if let Parse::Done(r3, _) = spec_single_digit(r2) {
                lemma_bytes_within(r3, digit, '.' as u8);
                lemma_within_tail(the_char(r3, '.' as u8), r3, s);
                if let Parse::Done(r4, _) = the_char(r3, '.' as u8) {
                    lemma_bytes_within(r4, digit, 0);
                    lemma_within_tail(spec_single_digit(r4), r4, s);
                }
            }
        }
    }
}

} // verus!
