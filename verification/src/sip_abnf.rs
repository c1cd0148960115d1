//! The character classes of the grammar as tests on a chunk of input: a
//! chunk is in a class where it is one byte long and the byte is in it.

use vstd::prelude::*;
use crate::msg::abnf::{
    is_hnv_unreserved, is_mark, is_token, is_unreserved, is_user_unreserved, is_word,
};

verus! {

/// `mark = "-" / "_" / "." / "!" / "~" / "*" / "'" / "(" / ")"`.
pub trait Mark {
    fn is_mark(&self) -> bool;
}

/// `unreserved = alphanum / mark`.
pub trait Unreserved {
    fn is_unreserved(&self) -> bool;
}

/// `user-unreserved = "&" / "=" / "+" / "$" / "," / ";" / "?" / "/"`.
pub trait UserUnreserved {
    fn is_user_unreserved(&self) -> bool;
}

/// `hnv-unreserved = "[" / "]" / "/" / "?" / ":" / "+" / "$"`.
pub trait HnvUnreserved {
    fn is_hnv_unreserved(&self) -> bool;
}

/// The characters of a `token`.
pub trait Token {
    fn is_token(&self) -> bool;
}

/// Linear white space: a tab or a space.
pub trait LWS {
    fn is_lws(&self) -> bool;
}

/// The characters of a `word`.
pub trait Word {
    fn is_word(&self) -> bool;
}

/// A tab or a space.
pub open spec fn spec_is_lws(i: u8) -> bool {
    i == '\t' as u8 || i == ' ' as u8
}

/// A chunk of one byte that is in `class`.
pub open spec fn one_of(chunk: Seq<u8>, class: spec_fn(u8) -> bool) -> bool {
    chunk.len() == 1 && class(chunk[0])
}

impl Mark for &[u8] {
    fn is_mark(&self) -> (r: bool)
        ensures
            r == one_of(self@, |i: u8| is_mark(i)),
    {
        self.len() == 1 && is_mark(self[0])
    }
}

impl Unreserved for &[u8] {
    fn is_unreserved(&self) -> (r: bool)
        ensures
            r == one_of(self@, |i: u8| is_unreserved(i)),
    {
        self.len() == 1 && is_unreserved(self[0])
    }
}

impl UserUnreserved for &[u8] {
    fn is_user_unreserved(&self) -> (r: bool)
        ensures
            r == one_of(self@, |i: u8| is_user_unreserved(i)),
    {
        self.len() == 1 && is_user_unreserved(self[0])
    }
}

impl HnvUnreserved for &[u8] {
    fn is_hnv_unreserved(&self) -> (r: bool)
        ensures
            r == one_of(self@, |i: u8| is_hnv_unreserved(i)),
    {
        self.len() == 1 && is_hnv_unreserved(self[0])
    }
}

impl Token for &[u8] {
    fn is_token(&self) -> (r: bool)
        ensures
            r == one_of(self@, |i: u8| is_token(i)),
    {
        self.len() == 1 && is_token(self[0])
    }
}

impl LWS for &[u8] {
    fn is_lws(&self) -> (r: bool)
        ensures
            r == one_of(self@, |i: u8| spec_is_lws(i)),
    {
        self.len() == 1 && (self[0] == '\t' as u8 || self[0] == ' ' as u8)
    }
}

impl Word for &[u8] {
    fn is_word(&self) -> (r: bool)
        ensures
            r == one_of(self@, |i: u8| is_word(i)),
    {
        self.len() == 1 && is_word(self[0])
    }
}

} // verus!
