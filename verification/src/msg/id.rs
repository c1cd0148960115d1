//! Identifiers made of token or word characters out of arbitrary bytes.
//!
//! The bytes are read as the digits of a number to the base 256, and the
//! number is written to the base of an alphabet, the lowest digit first, as
//! soon as enough of it is known.

use vstd::prelude::*;

verus! {

/// The characters that a generated token is made of.
pub open spec fn token_alphabet() -> Seq<u8> {
    seq![
        '-' as u8, '.' as u8, '!' as u8, '*' as u8, '_' as u8, '+' as u8, '`' as u8, '\'' as u8, '~' as u8,
        '0' as u8, '1' as u8, '2' as u8, '3' as u8, '4' as u8, '5' as u8, '6' as u8, '7' as u8, '8' as u8, '9' as u8,
        'a' as u8, 'b' as u8, 'c' as u8, 'd' as u8, 'e' as u8, 'f' as u8, 'g' as u8, 'h' as u8, 'i' as u8, 'j' as u8,
        'k' as u8, 'l' as u8, 'm' as u8, 'n' as u8, 'o' as u8, 'p' as u8, 'q' as u8, 'r' as u8, 's' as u8, 't' as u8,
        'u' as u8, 'v' as u8, 'w' as u8, 'x' as u8, 'y' as u8, 'z' as u8,
        'A' as u8, 'B' as u8, 'C' as u8, 'D' as u8, 'E' as u8, 'F' as u8, 'G' as u8, 'H' as u8, 'I' as u8, 'J' as u8,
        'K' as u8, 'L' as u8, 'M' as u8, 'N' as u8, 'O' as u8, 'P' as u8, 'Q' as u8, 'R' as u8, 'S' as u8, 'T' as u8,
        'U' as u8, 'V' as u8, 'W' as u8, 'X' as u8, 'Y' as u8, 'Z' as u8,
    ]
}

/// The characters that a generated word is made of.
pub open spec fn word_alphabet() -> Seq<u8> {
    seq![
        '-' as u8, '.' as u8, '!' as u8, '*' as u8, '_' as u8, '+' as u8, '`' as u8, '\'' as u8, '~' as u8, '(' as u8, ')' as u8,
        '<' as u8, '>' as u8, ':' as u8, '\\' as u8, '"' as u8, '/' as u8, '[' as u8, ']' as u8, '?' as u8, '{' as u8, '}' as u8,
        '0' as u8, '1' as u8, '2' as u8, '3' as u8, '4' as u8, '5' as u8, '6' as u8, '7' as u8, '8' as u8, '9' as u8,
        'a' as u8, 'b' as u8, 'c' as u8, 'd' as u8, 'e' as u8, 'f' as u8, 'g' as u8, 'h' as u8, 'i' as u8, 'j' as u8,
        'k' as u8, 'l' as u8, 'm' as u8, 'n' as u8, 'o' as u8, 'p' as u8, 'q' as u8, 'r' as u8, 's' as u8, 't' as u8,
        'u' as u8, 'v' as u8, 'w' as u8, 'x' as u8, 'y' as u8, 'z' as u8,
        'A' as u8, 'B' as u8, 'C' as u8, 'D' as u8, 'E' as u8, 'F' as u8, 'G' as u8, 'H' as u8, 'I' as u8, 'J' as u8,
        'K' as u8, 'L' as u8, 'M' as u8, 'N' as u8, 'O' as u8, 'P' as u8, 'Q' as u8, 'R' as u8, 'S' as u8, 'T' as u8,
        'U' as u8, 'V' as u8, 'W' as u8, 'X' as u8, 'Y' as u8, 'Z' as u8,
    ]
}

/// The characters that come out of an accumulator holding `acc` and the
/// input that is still to be read.
///
/// While the accumulator is larger than the alphabet, its lowest digit to
/// the base of the alphabet comes out. Otherwise the next byte of the input
/// goes in as a digit to the base 256. At the end of the input the digits of
/// what is left come out, down to zero.
pub open spec fn encoded(acc: nat, input: Seq<u8>, lookup: Seq<u8>) -> Seq<u8>
    decreases input.len(), acc,
    via encoded_decreases
{
    let base = lookup.len();
    if base < 2 {
        Seq::empty()
    } else if acc > base {
        seq![lookup[(acc % base) as int]] + encoded(acc / base, input, lookup)
    } else if input.len() > 0 {
        encoded(acc * 256 + input[0] as nat, input.skip(1), lookup)
    } else if acc > 0 {
        seq![lookup[(acc % base) as int]] + encoded(acc / base, input, lookup)
    } else {
        Seq::empty()
    }
}

#[via_fn]
proof fn encoded_decreases(acc: nat, input: Seq<u8>, lookup: Seq<u8>) {
    let base = lookup.len();
    if base >= 2 && acc > 0 {
        assert(acc / base < acc) by (nonlinear_arith)
            requires
                base >= 2,
                acc > 0,
        ;
    }
}

/// The output after the first `n` characters of `text` were written to it.
pub open spec fn generated(before: Seq<u8>, after: Seq<u8>, text: Seq<u8>, n: usize) -> bool {
    &&& after.len() == before.len()
    &&& n == if text.len() <= before.len() {
        text.len()
    } else {
        before.len()
    }
    &&& forall|i: int| 0 <= i < n ==> after[i] == text[i]
    &&& forall|i: int| n <= i < before.len() ==> after[i] == before[i]
}

/// The state of an encoder: the input, how much of it was read, the
/// alphabet, and the accumulator.
struct Hasher<'a> {
    input: &'a [u8],
    at: usize,
    lookup: &'a [u8],
    acc: usize,
    multiplier: usize,
}

impl<'a> Hasher<'a> {
    /// The alphabet has from 2 to 256 characters, and the accumulator is what
    /// one byte on top of a value no larger than the alphabet can make.
    spec fn well_formed(self) -> bool {
        &&& self.at <= self.input@.len()
        &&& 2 <= self.lookup@.len() <= 256
        &&& self.multiplier == 256
        &&& self.acc <= 256 * 256 + 255
    }

    /// The characters that are still to come.
    spec fn pending(self) -> Seq<u8> {
        encoded(self.acc as nat, self.input@.skip(self.at as int), self.lookup@)
    }

    fn new(input: &'a [u8], lookup: &'a [u8], multiplier: usize) -> (r: Hasher<'a>)
        requires
            2 <= lookup@.len() <= 256,
            multiplier == 256,
        ensures
            r.well_formed(),
            r.pending() == encoded(0, input@, lookup@),
            r.lookup@ == lookup@,
    {
        assert(input@.skip(0) =~= input@);
        Hasher { input, at: 0, lookup, acc: 0, multiplier }
    }

    /// Takes the lowest digit off the accumulator, as its character.
    fn calculate(&mut self) -> (r: u8)
        requires
            old(self).well_formed(),
        ensures
            final(self).well_formed(),
            r == old(self).lookup@[(old(self).acc as nat % old(self).lookup@.len()) as int],
            final(self).acc == old(self).acc as nat / old(self).lookup@.len(),
            final(self).input == old(self).input,
            final(self).at == old(self).at,
            final(self).lookup == old(self).lookup,
    {
        let ret = self.lookup[self.acc % self.lookup.len()];
        self.acc = self.acc / self.lookup.len();
        ret
    }

    /// The next character, if there is one.
    fn next(&mut self) -> (r: Option<u8>)
        requires
            old(self).well_formed(),
        ensures
            final(self).well_formed(),
            final(self).lookup == old(self).lookup,
            match r {
                Some(b) => old(self).pending().len() > 0 && b == old(self).pending()[0]
                    && final(self).pending() == old(self).pending().skip(1),
                None => old(self).pending().len() == 0,
            },
    {
        loop
            invariant
                self.well_formed(),
                self.lookup == old(self).lookup,
                self.pending() == old(self).pending(),
            decreases self.input@.len() - self.at,
        {
            if self.acc > self.lookup.len() {
                let ghost before = self.pending();
                let b = self.calculate();
                assert(before.skip(1) =~= self.pending());
                return Some(b);
            }
            if self.at < self.input.len() {
                let ghost rest = self.input@.skip(self.at as int);
                assert(rest.skip(1) =~= self.input@.skip(self.at + 1));
                self.acc = self.acc * self.multiplier + self.input[self.at] as usize;
                self.at += 1;
            } else if self.acc > 0 {
                let ghost before = self.pending();
                let b = self.calculate();
                assert(before.skip(1) =~= self.pending());
                return Some(b);
            } else {
                return None;
            }
        }
    }
}

/// Writes the characters that `input` makes in the alphabet `lookup` to the
/// front of `output`, as far as there is room, and says how many it wrote.
fn generate(input: &[u8], output: &mut [u8], lookup: &[u8]) -> (n: usize)
    requires
        2 <= lookup@.len() <= 256,
    ensures
        generated(old(output)@, final(output)@, encoded(0, input@, lookup@), n),
{
    let ghost text = encoded(0, input@, lookup@);
    let mut hasher = Hasher::new(input, lookup, 256);
    let mut n: usize = 0;
    while n < output.len()
        invariant
            hasher.well_formed(),
            text == encoded(0, input@, lookup@),
            n <= output@.len(),
            output@.len() == old(output)@.len(),
            n <= text.len(),
            hasher.pending() == text.skip(n as int),
            forall|i: int| 0 <= i < n ==> output@[i] == text[i],
            forall|i: int| n <= i < output@.len() ==> output@[i] == old(output)@[i],
        decreases output@.len() - n,
    {
        match hasher.next() {
            Some(b) => {
                assert(text.skip(n as int).skip(1) =~= text.skip(n + 1));
                output[n] = b;
                n += 1;
            },
            None => {
                assert(text.skip(n as int).len() == text.len() - n);
                return n;
            },
        }
    }
    n
}

/// Writes a token made from `input` to the front of `output`.
pub fn token(input: &[u8], output: &mut [u8]) -> (n: usize)
    ensures
        generated(old(output)@, final(output)@, encoded(0, input@, token_alphabet()), n),
{
    let table = [
        '-' as u8, '.' as u8, '!' as u8, '*' as u8, '_' as u8, '+' as u8, '`' as u8, '\'' as u8, '~' as u8,
        '0' as u8, '1' as u8, '2' as u8, '3' as u8, '4' as u8, '5' as u8, '6' as u8, '7' as u8, '8' as u8, '9' as u8,
        'a' as u8, 'b' as u8, 'c' as u8, 'd' as u8, 'e' as u8, 'f' as u8, 'g' as u8, 'h' as u8, 'i' as u8, 'j' as u8,
        'k' as u8, 'l' as u8, 'm' as u8, 'n' as u8, 'o' as u8, 'p' as u8, 'q' as u8, 'r' as u8, 's' as u8, 't' as u8,
        'u' as u8, 'v' as u8, 'w' as u8, 'x' as u8, 'y' as u8, 'z' as u8,
        'A' as u8, 'B' as u8, 'C' as u8, 'D' as u8, 'E' as u8, 'F' as u8, 'G' as u8, 'H' as u8, 'I' as u8, 'J' as u8,
        'K' as u8, 'L' as u8, 'M' as u8, 'N' as u8, 'O' as u8, 'P' as u8, 'Q' as u8, 'R' as u8, 'S' as u8, 'T' as u8,
        'U' as u8, 'V' as u8, 'W' as u8, 'X' as u8, 'Y' as u8, 'Z' as u8,
    ];
    assert(table@ =~= token_alphabet());
    generate(input, output, &table)
}

/// Writes a word made from `input` to the front of `output`.
pub fn word(input: &[u8], output: &mut [u8]) -> (n: usize)
    ensures
        generated(old(output)@, final(output)@, encoded(0, input@, word_alphabet()), n),
{
    let table = [
        '-' as u8, '.' as u8, '!' as u8, '*' as u8, '_' as u8, '+' as u8, '`' as u8, '\'' as u8, '~' as u8, '(' as u8, ')' as u8,
        '<' as u8, '>' as u8, ':' as u8, '\\' as u8, '"' as u8, '/' as u8, '[' as u8, ']' as u8, '?' as u8, '{' as u8, '}' as u8,
        '0' as u8, '1' as u8, '2' as u8, '3' as u8, '4' as u8, '5' as u8, '6' as u8, '7' as u8, '8' as u8, '9' as u8,
        'a' as u8, 'b' as u8, 'c' as u8, 'd' as u8, 'e' as u8, 'f' as u8, 'g' as u8, 'h' as u8, 'i' as u8, 'j' as u8,
        'k' as u8, 'l' as u8, 'm' as u8, 'n' as u8, 'o' as u8, 'p' as u8, 'q' as u8, 'r' as u8, 's' as u8, 't' as u8,
        'u' as u8, 'v' as u8, 'w' as u8, 'x' as u8, 'y' as u8, 'z' as u8,
        'A' as u8, 'B' as u8, 'C' as u8, 'D' as u8, 'E' as u8, 'F' as u8, 'G' as u8, 'H' as u8, 'I' as u8, 'J' as u8,
        'K' as u8, 'L' as u8, 'M' as u8, 'N' as u8, 'O' as u8, 'P' as u8, 'Q' as u8, 'R' as u8, 'S' as u8, 'T' as u8,
        'U' as u8, 'V' as u8, 'W' as u8, 'X' as u8, 'Y' as u8, 'Z' as u8,
    ];
    assert(table@ =~= word_alphabet());
    generate(input, output, &table)
}

} // verus!
