//! A token at the start of a buffer that holds all of the input.

use vstd::prelude::*;
use vstd::utf8::valid_utf8;
use crate::msg::abnf::ch::{text_of, utf8_char_width};
use crate::msg::abnf::outcome::{class_run, lemma_class_run_stops};
use crate::sip_abnf::Token;

verus! {

/// Why no token was found.
#[derive(Debug)]
pub enum Error {
    /// The input does not start with a token character.
    NotAToken,
}

/// A cursor that hands out an input character by character, each as the
/// bytes that encode it.
struct MyReader<'a> {
    inner: &'a [u8],
    i: usize,
}

impl<'a> MyReader<'a> {
    /// The bytes of the next character. Nothing comes at the end of the
    /// input, at a byte that starts no character, and at a character of
    /// several bytes that is malformed or has not at least one byte behind it.
    fn next(&mut self) -> (r: Option<&'a [u8]>)
        requires
            old(self).i <= old(self).inner@.len(),
        ensures
            final(self).inner == old(self).inner,
            final(self).i <= final(self).inner@.len(),
            old(self).i >= old(self).inner@.len() ==> r is None && final(self).i == old(self).i,
            old(self).i < old(self).inner@.len() ==> ({
                let s = old(self).inner@;
                let i = old(self).i as int;
                let w = utf8_char_width(s[i]) as int;
                if w == 1 {
                    final(self).i == i + 1 && (r matches Some(chunk) && chunk@ == s.subrange(
                        i,
                        i + 1,
                    ))
                } else if 2 <= w && i + 1 + w < s.len() {
                    final(self).i == i + w && if valid_utf8(s.subrange(i, i + w)) {
                        (r matches Some(chunk) && chunk@ == s.subrange(i, i + w))
                    } else {
                        r is None
                    }
                } else {
                    final(self).i == i + 1 && r is None
                }
            }),
    {
        if self.i >= self.inner.len() {
            return None;
        }
        let first = self.inner[self.i];
        self.i += 1;
        let w = utf8_char_width(first);
        if w == 1 {
            Some(&self.inner[self.i - 1..self.i])
        } else if w >= 2 {
            if self.inner.len() - self.i <= w {
                None
            } else {
                self.i += w - 1;
                let chunk = &self.inner[self.i - w..self.i];
                match text_of(chunk) {
                    Some(_) => Some(chunk),
                    None => None,
                }
            }
        } else {
            None
        }
    }
}

/// The token that `input` starts with: its longest run of token characters,
/// which must not be empty.
pub open spec fn spec_parse_token(s: Seq<u8>) -> Option<Seq<u8>> {
    let n = class_run(s, s.len(), |i: u8| crate::msg::abnf::is_token(i));
    if n == 0 {
        None
    } else {
        Some(s.take(n as int))
    }
}

/// The token at the start of `input`.
pub fn parse_token<'a>(input: &'a [u8]) -> (r: Result<&'a [u8], Error>)
    ensures
        match spec_parse_token(input@) {
            Some(token) => r matches Ok(found) && found@ == token,
            None => r matches Err(Error::NotAToken),
        },
{
    let ghost s = input@;
    let ghost class = |i: u8| crate::msg::abnf::is_token(i);
    let mut reader = MyReader { inner: input, i: 0 };
    let mut len: usize = 0;
    loop
        invariant
            s == input@,
            class == (|i: u8| crate::msg::abnf::is_token(i)),
            reader.inner == input,
            reader.i == len,
            len <= s.len(),
            class_run(s, len as nat, class) == len,
        decreases s.len() - len,
    {
        let more = match reader.next() {
            Some(chunk) => chunk.is_token(),
            None => false,
        };
        if more {
            len += 1;
        } else {
            proof {
                lemma_class_run_stops(s, len as nat, s.len(), class);
            }
            return if len == 0 {
                Err(Error::NotAToken)
            } else {
                Ok(&input[0..len])
            };
        }
    }
}

} // verus!
