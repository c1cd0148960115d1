//! Decimal and hexadecimal numbers.

use vstd::prelude::*;
use crate::msg::abnf::{is_digit, is_hex_digit};
use crate::msg::abnf::outcome::{
    byte_where, class_run, leading_count, lemma_bytes_within, lemma_class_run_bounds,
    lemma_class_run_reaches, lemma_class_run_stops, lemma_leading_count_bounds,
    lemma_leading_count_stops, lemma_skip_is_tail, map_byte, yields, ErrorKind, Failure, IResult,
    Parse,
};

verus! {

/// The value of a hexadecimal digit.
pub open spec fn hex_value(b: u8) -> u8 {
    if is_digit(b) {
        (b - '0' as u8) as u8
    } else if 'A' as u8 <= b <= 'F' as u8 {
        (b - 'A' as u8 + 10) as u8
    } else {
        (b - 'a' as u8 + 10) as u8
    }
}

/// One decimal digit on a streaming input.
pub open spec fn spec_single(s: Seq<u8>) -> Parse<u8> {
    byte_where(s, |b: u8| is_digit(b)).map(|b: u8| (b - '0' as u8) as u8)
}

/// One hexadecimal digit on a streaming input.
pub open spec fn spec_single_hex(s: Seq<u8>) -> Parse<u8> {
    byte_where(s, |b: u8| is_hex_digit(b)).map(|b: u8| hex_value(b))
}

/// One decimal digit, as its value.
pub fn single<'a>(input: &'a [u8]) -> (r: IResult<'a, u8>)
    ensures
        yields(r, spec_single(input@)),
{
    let (rest, c) = map_byte(input, is_digit, Ghost(|b: u8| is_digit(b)))?;
    Ok((rest, c - '0' as u8))
}

/// One hexadecimal digit of either case, as its value.
pub fn single_hex<'a>(input: &'a [u8]) -> (r: IResult<'a, u8>)
    ensures
        yields(r, spec_single_hex(input@)),
{
    let (rest, c) = map_byte(input, is_hex_digit, Ghost(|b: u8| is_hex_digit(b)))?;
    let v = if c <= '9' as u8 {
        c - '0' as u8
    } else if c <= 'F' as u8 {
        c - 'A' as u8 + 10
    } else {
        c - 'a' as u8 + 10
    };
    Ok((rest, v))
}

/// The number of leading decimal digits of `s`, at most `max`.
pub open spec fn digit_run(s: Seq<u8>, max: nat) -> nat {
    class_run(s, max, |b: u8| is_digit(b))
}

/// The number of leading hexadecimal digits of `s`, at most `max`.
pub open spec fn hex_run(s: Seq<u8>, max: nat) -> nat {
    class_run(s, max, |b: u8| is_hex_digit(b))
}

/// The decimal value of the first `n` bytes of `s`, all of them digits.
pub open spec fn decimal(s: Seq<u8>, n: nat) -> nat
    decreases n,
{
    if n == 0 {
        0
    } else {
        decimal(s, (n - 1) as nat) * 10 + (s[n - 1] - '0' as u8) as nat
    }
}

/// The hexadecimal value of the first `n` bytes of `s`, all of them digits.
pub open spec fn hexadecimal(s: Seq<u8>, n: nat) -> nat
    decreases n,
{
    if n == 0 {
        0
    } else {
        hexadecimal(s, (n - 1) as nat) * 16 + hex_value(s[n - 1]) as nat
    }
}

/// The number of leading digits of `s`, at most `max`, that a bounded
/// accumulator takes in: it stops before the digit that would take the value
/// past `bound`.
pub open spec fn bounded_run(s: Seq<u8>, max: nat, bound: nat) -> nat {
    leading_count(
        max,
        |i: nat| i < s.len() && is_digit(s[i as int]) && decimal(s, i + 1) <= bound,
    )
}

/// A bounded run that cannot take the next byte in stays where it is.
pub proof fn lemma_bounded_run_stops(s: Seq<u8>, n: nat, max: nat, bound: nat)
    requires
        n <= max,
        bounded_run(s, n, bound) == n,
        n == s.len() || !is_digit(s[n as int]) || decimal(s, n + 1) > bound,
    ensures
        bounded_run(s, max, bound) == n,
{
    lemma_leading_count_stops(
        n,
        max,
        |i: nat| i < s.len() && is_digit(s[i as int]) && decimal(s, i + 1) <= bound,
    );
}

/// What a bounded decimal accumulator finds at the start of `input`: how many
/// digits it took in, whether it stopped before a digit that would have passed
/// `bound`, and the value of the digits taken in.
pub fn accumulate(input: &[u8], max: usize, bound: u64) -> (r: (usize, bool, u64))
    requires
        bound <= 0xffff_ffff,
    ensures
        r.0 == bounded_run(input@, max as nat, bound as nat),
        r.1 == (r.0 < digit_run(input@, max as nat)),
        r.2 == decimal(input@, r.0 as nat),
        r.0 <= max,
        r.0 <= input@.len(),
        r.2 <= bound,
{
    let ghost s = input@;
    let ghost class = |b: u8| is_digit(b);
    let mut n: usize = 0;
    let mut acc: u64 = 0;
    while n < max && n < input.len()
        invariant
            s == input@,
            class == (|b: u8| is_digit(b)),
            n <= max,
            n <= s.len(),
            class_run(s, n as nat, class) == n,
            bounded_run(s, n as nat, bound as nat) == n,
            acc == decimal(s, n as nat),
            acc <= bound,
            bound <= 0xffff_ffff,
        decreases max - n,
    {
        let b = input[n];
        if !is_digit(b) {
            proof {
                lemma_class_run_stops(s, n as nat, max as nat, class);
                lemma_bounded_run_stops(s, n as nat, max as nat, bound as nat);
            }
            return (n, false, acc);
        }
        let next = acc * 10 + (b - '0' as u8) as u64;
        if next > bound {
            proof {
                lemma_class_run_reaches(s, n as nat, max as nat, class);
                lemma_bounded_run_stops(s, n as nat, max as nat, bound as nat);
            }
            return (n, true, acc);
        }
        acc = next;
        n += 1;
    }
    proof {
        lemma_class_run_bounds(s, max as nat, class);
        if n < max {
            lemma_class_run_stops(s, n as nat, max as nat, class);
            lemma_bounded_run_stops(s, n as nat, max as nat, bound as nat);
        }
    }
    (n, false, acc)
}

/// A decimal octet: one to three digits, 0 to 255. A digit that would take
/// the value past 255 is turned down where it stands.
pub open spec fn spec_dec_u8(s: Seq<u8>) -> Parse<u8> {
    spec_single(s).and_then(
        |rest: Seq<u8>, first: u8|
            {
                let n = bounded_run(s, 3, 255);
                if n < digit_run(s, 3) {
                    Parse::Error(s.skip(n as int), ErrorKind::Digit)
                } else {
                    Parse::Done(s.skip(n as int), decimal(s, n) as u8)
                }
            },
    )
}

/// `1*3DIGIT`, 0 to 255.
pub fn dec_u8<'a>(input: &'a [u8]) -> (r: IResult<'a, u8>)
    ensures
        yields(r, spec_dec_u8(input@)),
{
    let _ = single(input)?;
    let (n, overflow, value) = accumulate(input, 3, 255);
    let rest = &input[n..input.len()];
    if overflow {
        Err(Failure::Error(rest, ErrorKind::Digit))
    } else {
        Ok((rest, value as u8))
    }
}

/// `h16`: one to four hexadecimal digits, as a 16-bit group.
pub open spec fn spec_h16(s: Seq<u8>) -> Parse<u16> {
    spec_single_hex(s).and_then(
        |rest: Seq<u8>, first: u8|
            {
                let n = hex_run(s, 4);
                Parse::Done(s.skip(n as int), hexadecimal(s, n) as u16)
            },
    )
}

/// `1*4HEXDIG`.
pub fn h16<'a>(input: &'a [u8]) -> (r: IResult<'a, u16>)
    ensures
        yields(r, spec_h16(input@)),
{
    let (_, first) = single_hex(input)?;
    let ghost s = input@;
    let ghost class = |b: u8| is_hex_digit(b);
    let mut n: usize = 1;
    let mut acc: u16 = first as u16;
    assert(class_run(s, 0, class) == 0);
    assert(hexadecimal(s, 0) == 0);
    while n < 4 && n < input.len()
        invariant
            s == input@,
            class == (|b: u8| is_hex_digit(b)),
            1 <= n <= 4,
            n <= s.len(),
            is_hex_digit(s[0]),
            class_run(s, n as nat, class) == n,
            acc == hexadecimal(s, n as nat),
            n == 1 ==> acc < 0x10,
            n == 2 ==> acc < 0x100,
            n == 3 ==> acc < 0x1000,
        decreases 4 - n,
    {
        let b = input[n];
        if !is_hex_digit(b) {
            proof {
                lemma_class_run_stops(s, n as nat, 4, class);
            }
            return Ok((&input[n..input.len()], acc));
        }
        let v: u16 = if b <= '9' as u8 {
            (b - '0' as u8) as u16
        } else if b <= 'F' as u8 {
            (b - 'A' as u8 + 10) as u16
        } else {
            (b - 'a' as u8 + 10) as u16
        };
        acc = acc * 16 + v;
        n += 1;
    }
    proof {
        if n < 4 {
            lemma_class_run_stops(s, n as nat, 4, class);
        }
    }
    Ok((&input[n..input.len()], acc))
}

/// The rules of digits and numbers stay within their input.
pub proof fn lemma_digits_within(s: Seq<u8>)
    ensures
        spec_single(s).within(s),
        spec_single_hex(s).within(s),
        spec_dec_u8(s).within(s),
        spec_h16(s).within(s),
{
    lemma_bytes_within(s, |b: u8| is_digit(b), 0);
    lemma_bytes_within(s, |b: u8| is_hex_digit(b), 0);
    lemma_bounded_run_within(s, 3, 255);
    lemma_class_run_bounds(s, 4, |b: u8| is_hex_digit(b));
    lemma_skip_is_tail(s, hex_run(s, 4) as int);
}

/// What a bounded accumulator leaves is a tail of its input.
pub proof fn lemma_bounded_run_within(s: Seq<u8>, max: nat, bound: nat)
    ensures
        bounded_run(s, max, bound) <= s.len(),
        crate::msg::abnf::outcome::is_tail(s.skip(bounded_run(s, max, bound) as int), s),
{
    let ok = |i: nat| i < s.len() && is_digit(s[i as int]) && decimal(s, i + 1) <= bound;
    lemma_leading_count_bounds(max, ok);
    let n = bounded_run(s, max, bound);
    if n > 0 {
        assert(ok((n - 1) as nat));
    }
    lemma_skip_is_tail(s, n as int);
}

} // verus!
