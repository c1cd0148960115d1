//! The method of a request.

pub mod assemble;
pub mod parse;

use vstd::prelude::*;
use crate::msg::abnf::outcome::Parse;
use crate::msg::method::parse::spec_method;

verus! {

/// A request method: one of the six of the core protocol, or an extension
/// by its token.
#[derive(Debug, PartialEq, Eq, Clone, Copy)]
pub enum Method<'a> {
    Register,
    Invite,
    Ack,
    Cancel,
    Bye,
    Options,
    Token(&'a [u8]),
}

/// The value of a [`Method`].
pub enum MethodView {
    Register,
    Invite,
    Ack,
    Cancel,
    Bye,
    Options,
    Token(Seq<u8>),
}

impl<'a> View for Method<'a> {
    type V = MethodView;

    open spec fn view(&self) -> MethodView {
        match *self {
            Method::Register => MethodView::Register,
            Method::Invite => MethodView::Invite,
            Method::Ack => MethodView::Ack,
            Method::Cancel => MethodView::Cancel,
            Method::Bye => MethodView::Bye,
            Method::Options => MethodView::Options,
            Method::Token(t) => MethodView::Token(t@),
        }
    }
}

/// `REGISTER`.
pub open spec fn register_text() -> Seq<u8> {
    seq![
        'R' as u8,
        'E' as u8,
        'G' as u8,
        'I' as u8,
        'S' as u8,
        'T' as u8,
        'E' as u8,
        'R' as u8,
    ]
}

/// `INVITE`.
pub open spec fn invite_text() -> Seq<u8> {
    seq!['I' as u8, 'N' as u8, 'V' as u8, 'I' as u8, 'T' as u8, 'E' as u8]
}

/// `ACK`.
pub open spec fn ack_text() -> Seq<u8> {
    seq!['A' as u8, 'C' as u8, 'K' as u8]
}

/// `CANCEL`.
pub open spec fn cancel_text() -> Seq<u8> {
    seq!['C' as u8, 'A' as u8, 'N' as u8, 'C' as u8, 'E' as u8, 'L' as u8]
}

/// `BYE`.
pub open spec fn bye_text() -> Seq<u8> {
    seq!['B' as u8, 'Y' as u8, 'E' as u8]
}

/// `OPTIONS`.
pub open spec fn options_text() -> Seq<u8> {
    seq!['O' as u8, 'P' as u8, 'T' as u8, 'I' as u8, 'O' as u8, 'N' as u8, 'S' as u8]
}

impl MethodView {
    /// The text of the method: its name in capitals, or the token itself.
    pub open spec fn text(self) -> Seq<u8> {
        match self {
            MethodView::Register => register_text(),
            MethodView::Invite => invite_text(),
            MethodView::Ack => ack_text(),
            MethodView::Cancel => cancel_text(),
            MethodView::Bye => bye_text(),
            MethodView::Options => options_text(),
            MethodView::Token(t) => t,
        }
    }

    /// One of the six methods of the core protocol.
    pub open spec fn is_fixed(self) -> bool {
        !(self is Token)
    }
}

/// The name of one of the six methods of the core protocol, at the front of
/// an array, and its length.
pub fn fixed_text(m: Method<'_>) -> (r: ([u8; 8], usize))
    requires
        m@.is_fixed(),
    ensures
        r.1 <= 8,
        r.0@.take(r.1 as int) == m@.text(),
{
    let z: u8 = 0;
    match m {
        Method::Register => {
            let t = [
                'R' as u8,
                'E' as u8,
                'G' as u8,
                'I' as u8,
                'S' as u8,
                'T' as u8,
                'E' as u8,
                'R' as u8,
            ];
            assert(t@.take(8) =~= register_text());
            (t, 8)
        },
        Method::Invite => {
            let t = ['I' as u8, 'N' as u8, 'V' as u8, 'I' as u8, 'T' as u8, 'E' as u8, z, z];
            assert(t@.take(6) =~= invite_text());
            (t, 6)
        },
        Method::Ack => {
            let t = ['A' as u8, 'C' as u8, 'K' as u8, z, z, z, z, z];
            assert(t@.take(3) =~= ack_text());
            (t, 3)
        },
        Method::Cancel => {
            let t = ['C' as u8, 'A' as u8, 'N' as u8, 'C' as u8, 'E' as u8, 'L' as u8, z, z];
            assert(t@.take(6) =~= cancel_text());
            (t, 6)
        },
        Method::Bye => {
            let t = ['B' as u8, 'Y' as u8, 'E' as u8, z, z, z, z, z];
            assert(t@.take(3) =~= bye_text());
            (t, 3)
        },
        _ => {
            let t = ['O' as u8, 'P' as u8, 'T' as u8, 'I' as u8, 'O' as u8, 'N' as u8, 'S' as u8, z];
            assert(t@.take(7) =~= options_text());
            (t, 7)
        },
    }
}

/// The text of a method of the core protocol reads back as that method,
/// whatever follows it: the parser takes exactly the name and leaves the rest.
pub proof fn lemma_method_round_trip(m: MethodView, tail: Seq<u8>)
    requires
        m.is_fixed(),
    ensures
        spec_method(m.text() + tail) == Parse::Done(tail, m),
{
    let s = m.text() + tail;
    assert(s.skip(m.text().len() as int) =~= tail);
    assert(s[0] == m.text()[0]);
    assert(register_text()[0] == 'R' as u8);
    assert(invite_text()[0] == 'I' as u8);
    assert(ack_text()[0] == 'A' as u8);
    assert(cancel_text()[0] == 'C' as u8);
    assert(bye_text()[0] == 'B' as u8);
    assert(options_text()[0] == 'O' as u8);
}

} // verus!
