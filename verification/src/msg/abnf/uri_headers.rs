//! The headers that a URI carries after its parameters.

use vstd::prelude::*;
use crate::msg::abnf::{is_hnv_unreserved, is_unreserved};
use crate::msg::abnf::ch::{
    count_elements, element_of, elements, elements1, lemma_characters_within, lemma_elements_len,
};
use crate::msg::abnf::outcome::{
    byte, byte_where, is_tail, leading_count, lemma_bytes_within, lemma_leading_count_reaches,
    lemma_leading_count_stops, lemma_skip_is_tail, lemma_within_tail, map_byte, the_byte, yields,
    IResult, Parse,
};

verus! {

/// One byte of `hnv-unreserved`.
pub fn hnv_unreserved<'a>(input: &'a [u8]) -> (r: IResult<'a, u8>)
    ensures
        yields(r, byte_where(input@, |i: u8| is_hnv_unreserved(i))),
{
    map_byte(input, is_hnv_unreserved, Ghost(|i: u8| is_hnv_unreserved(i)))
}

/// The plain bytes of a header's name and value: `hnv-unreserved / unreserved`.
pub open spec fn spec_is_header_byte(i: u8) -> bool {
    is_hnv_unreserved(i) || is_unreserved(i)
}

#[verifier::when_used_as_spec(spec_is_header_byte)]
pub fn is_header_byte(i: u8) -> (r: bool)
    ensures
        r == spec_is_header_byte(i),
{
    is_hnv_unreserved(i) || is_unreserved(i)
}

/// `hname = 1*( hnv-unreserved / unreserved / escaped )`.
pub open spec fn spec_hname(s: Seq<u8>) -> Parse<Seq<u8>> {
    elements1(s, |i: u8| is_header_byte(i))
}

/// `hvalue = *( hnv-unreserved / unreserved / escaped )`.
pub open spec fn spec_hvalue(s: Seq<u8>) -> Parse<Seq<u8>> {
    elements(s, |i: u8| is_header_byte(i))
}

/// The name of a header.
pub fn hname<'a>(input: &'a [u8]) -> (r: IResult<'a, &'a [u8]>)
    ensures
        yields(r, spec_hname(input@)),
{
    let _ = element_of(input, is_header_byte, Ghost(|i: u8| is_header_byte(i)))?;
    let n = count_elements(input, &is_header_byte, Ghost(|i: u8| is_header_byte(i)));
    Ok((&input[n..input.len()], &input[0..n]))
}

/// The value of a header, which may be empty.
pub fn hvalue<'a>(input: &'a [u8]) -> (r: IResult<'a, &'a [u8]>)
    ensures
        yields(r, spec_hvalue(input@)),
{
    let n = count_elements(input, &is_header_byte, Ghost(|i: u8| is_header_byte(i)));
    Ok((&input[n..input.len()], &input[0..n]))
}

/// `header = hname "=" hvalue`, as the name and the value.
pub open spec fn spec_header(s: Seq<u8>) -> Parse<(Seq<u8>, Seq<u8>)> {
    spec_hname(s).and_then(
        |r1: Seq<u8>, name: Seq<u8>|
            the_byte(r1, '=' as u8).and_then(
                |r2: Seq<u8>, eq: u8| spec_hvalue(r2).map(|value: Seq<u8>| (name, value)),
            ),
    )
}

/// One header.
pub fn header<'a>(input: &'a [u8]) -> (r: IResult<'a, (&'a [u8], &'a [u8])>)
    ensures
        yields(r, spec_header(input@)),
{
    let (rest, name) = hname(input)?;
    let (rest, _) = byte(rest, '=' as u8)?;
    let (rest, value) = hvalue(rest)?;
    Ok((rest, (name, value)))
}

/// The failure of a list parser.
#[derive(Debug, PartialEq, Eq)]
pub enum ParseError {
    /// The output array has no room for the next entry.
    NotEnoughOutSpace {
        /// The number of places written before.
        written: usize,
    },
}

/// A header behind its separator: `?` before the first, `&` before the others.
pub open spec fn separated_header(s: Seq<u8>, first: bool) -> Parse<(Seq<u8>, Seq<u8>)> {
    the_byte(s, if first { '?' as u8 } else { '&' as u8 }).and_then(
        |r: Seq<u8>, sep: u8| spec_header(r),
    )
}

/// What is left of `s` after `j` headers and their separators.
pub open spec fn after_headers(s: Seq<u8>, j: nat) -> Seq<u8>
    decreases j,
{
    if j == 0 {
        s
    } else {
        let before = after_headers(s, (j - 1) as nat);
        match separated_header(before, j == 1) {
            Parse::Done(r, _) => r,
            _ => before,
        }
    }
}

/// Whether a header stands behind the first `j` headers of `s`.
pub open spec fn header_at(s: Seq<u8>, j: nat) -> bool {
    separated_header(after_headers(s, j), j == 0) is Done
}

/// The name and the value of the header behind the first `j` headers of `s`.
pub open spec fn header_pair(s: Seq<u8>, j: nat) -> (Seq<u8>, Seq<u8>) {
    separated_header(after_headers(s, j), j == 0)->Done_1
}

/// The number of headers in `"?" header *( "&" header )` at the start of `s`.
pub open spec fn header_count(s: Seq<u8>) -> nat {
    leading_count(s.len(), |j: nat| header_at(s, j))
}

/// `headers = "?" header *( "&" header )` into an array of `cap` places, two
/// for each header: the remainder and the number of places written, or the
/// places written when the next header found no room.
///
/// A `?` that no header follows is consumed all the same.
pub open spec fn spec_headers(s: Seq<u8>, cap: nat) -> Result<(Seq<u8>, usize), ParseError> {
    let m = header_count(s);
    if m > cap / 2 {
        Err(ParseError::NotEnoughOutSpace { written: (2 * (cap / 2)) as usize })
    } else if m == 0 {
        match the_byte(s, '?' as u8) {
            Parse::Done(r, _) => Ok((r, 0)),
            _ => Ok((s, 0)),
        }
    } else {
        Ok((after_headers(s, m), (2 * m) as usize))
    }
}

/// The number of headers written to an array of `cap` places.
pub open spec fn headers_written(s: Seq<u8>, cap: nat) -> nat {
    if header_count(s) <= cap / 2 {
        header_count(s)
    } else {
        cap / 2
    }
}

/// The output array after the headers of `s` were written to it: names at
/// the even places, each value behind its name, in the order of the input;
/// the places behind them as they were.
pub open spec fn headers_stored(before: Seq<&[u8]>, after: Seq<&[u8]>, s: Seq<u8>) -> bool {
    &&& after.len() == before.len()
    &&& forall|j: int|
        0 <= j < headers_written(s, before.len()) ==> (#[trigger] after[2 * j])@ == header_pair(
            s,
            j as nat,
        ).0
    &&& forall|j: int|
        0 <= j < headers_written(s, before.len()) ==> (#[trigger] after[2 * j + 1])@
            == header_pair(s, j as nat).1
    &&& forall|i: int|
        2 * headers_written(s, before.len()) <= i < before.len() ==> #[trigger] after[i]
            == before[i]
}

/// A header behind its separator takes at least three bytes.
pub proof fn lemma_separated_header(s: Seq<u8>, first: bool)
    requires
        separated_header(s, first) is Done,
    ensures
        separated_header(s, first)->Done_0.len() + 3 <= s.len(),
{
    let class = |i: u8| is_header_byte(i);
    let r = s.skip(1);
    lemma_elements_len(r, class);
    let n = crate::msg::abnf::ch::elements_len(r, class);
    let r1 = r.skip(n as int);
    lemma_elements_len(r1.skip(1), class);
}

/// The headers of a URI, written to `out` as names and values in turn.
pub fn headers<'a, 'b>(input: &'a [u8], out: &'b mut [&'a [u8]]) -> (r: Result<
    (&'a [u8], usize),
    ParseError,
>)
    ensures
        match spec_headers(input@, old(out)@.len()) {
            Ok((rest, written)) => r matches Ok((i, n)) && i@ == rest && n == written,
            Err(e) => r == Err::<(&[u8], usize), ParseError>(e),
        },
        headers_stored(old(out)@, final(out)@, input@),
{
    let ghost s = input@;
    let ghost before = out@;
    let ghost ok = |j: nat| header_at(s, j);
    let mut rest = input;
    let mut i: usize = 0;
    let mut m: usize = 0;
    let mut first = true;
    loop
        invariant
            s == input@,
            ok == (|j: nat| header_at(s, j)),
            before == old(out)@,
            out@.len() == before.len(),
            i == 2 * m,
            i <= out@.len(),
            first == (m == 0),
            rest@ == after_headers(s, m as nat),
            leading_count(m as nat, ok) == m,
            3 * m + rest@.len() <= s.len(),
            forall|j: int| 0 <= j < m ==> (#[trigger] out@[2 * j])@ == header_pair(s, j as nat).0,
            forall|j: int|
                0 <= j < m ==> (#[trigger] out@[2 * j + 1])@ == header_pair(s, j as nat).1,
            forall|x: int| i <= x < before.len() ==> #[trigger] out@[x] == before[x],
        decreases rest@.len(),
    {
        let after_sep = match byte(rest, if first { '?' as u8 } else { '&' as u8 }) {
            Ok((after, _)) => after,
            Err(_) => {
                proof {
                    lemma_leading_count_stops(m as nat, s.len(), ok);
                }
                return Ok((rest, i));
            },
        };
        match header(after_sep) {
            Ok((after, found)) => {
                proof {
                    lemma_separated_header(rest@, first);
                }
                if i + 1 >= out.len() {
                    proof {
                        lemma_leading_count_reaches(m as nat, s.len(), ok);
                    }
                    return Err(ParseError::NotEnoughOutSpace { written: i });
                }
                out[i] = found.0;
                out[i + 1] = found.1;
                i += 2;
                m += 1;
                first = false;
                rest = after;
            },
            Err(_) => {
                proof {
                    lemma_leading_count_stops(m as nat, s.len(), ok);
                }
                if first {
                    return Ok((after_sep, i));
                } else {
                    return Ok((rest, i));
                }
            },
        }
    }
}

/// A header, with or without its separator, stays within its input.
pub proof fn lemma_header_within(s: Seq<u8>, first: bool)
    ensures
        spec_hname(s).within(s),
        spec_hvalue(s).within(s),
        spec_header(s).within(s),
        separated_header(s, first).within(s),
{
    lemma_header_alone_within(s);
    let sep = if first { '?' as u8 } else { '&' as u8 };
    lemma_bytes_within(s, |i: u8| true, sep);
    if let Parse::Done(r, _) = the_byte(s, sep) {
        lemma_header_alone_within(r);
        lemma_within_tail(spec_header(r), r, s);
    }
}

proof fn lemma_header_alone_within(s: Seq<u8>)
    ensures
        spec_hname(s).within(s),
        spec_hvalue(s).within(s),
        spec_header(s).within(s),
{
    let class = |i: u8| is_header_byte(i);
    lemma_characters_within(s, class);
    if let Parse::Done(r1, _) = spec_hname(s) {
        lemma_bytes_within(r1, |i: u8| true, '=' as u8);
        lemma_within_tail(the_byte(r1, '=' as u8), r1, s);
        if let Parse::Done(r2, _) = the_byte(r1, '=' as u8) {
            lemma_characters_within(r2, class);
            lemma_within_tail(spec_hvalue(r2), r2, s);
        }
    }
}

/// What is left after some headers is a tail of the input.
pub proof fn lemma_after_headers_is_tail(s: Seq<u8>, j: nat)
    ensures
        is_tail(after_headers(s, j), s),
    decreases j,
{
    lemma_skip_is_tail(s, 0);
    if j > 0 {
        lemma_after_headers_is_tail(s, (j - 1) as nat);
        let before = after_headers(s, (j - 1) as nat);
        lemma_header_within(before, j == 1);
        lemma_within_tail(separated_header(before, j == 1), before, s);
    }
}

/// What the list of headers leaves is a tail of its input.
pub proof fn lemma_headers_within(s: Seq<u8>, cap: nat)
    ensures
        spec_headers(s, cap) matches Ok((rest, _)) ==> is_tail(rest, s),
{
    lemma_skip_is_tail(s, 0);
    lemma_bytes_within(s, |i: u8| true, '?' as u8);
    lemma_after_headers_is_tail(s, header_count(s));
}

} // verus!
