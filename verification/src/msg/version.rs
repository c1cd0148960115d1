//! The protocol version of a message.

pub mod assemble;
pub mod parse;

use vstd::prelude::*;
use crate::msg::abnf::outcome::Parse;
use crate::msg::version::parse::spec_version;

verus! {

/// A protocol version: the major and the minor number, one digit each.
#[derive(Debug, PartialEq, Eq, Clone, Copy, Structural)]
pub struct Version(pub u8, pub u8);

impl View for Version {
    type V = Version;

    open spec fn view(&self) -> Version {
        *self
    }
}

impl Version {
    /// Both numbers are single digits, so that the version can be written.
    pub open spec fn is_written_with_digits(self) -> bool {
        self.0 <= 9 && self.1 <= 9
    }

    /// The text of the version: `SIP/`, the major digit, a dot, the minor digit.
    pub open spec fn text(self) -> Seq<u8> {
        seq![
            'S' as u8,
            'I' as u8,
            'P' as u8,
            '/' as u8,
            ('0' as u8 + self.0) as u8,
            '.' as u8,
            ('0' as u8 + self.1) as u8,
        ]
    }
}

/// The text of a version reads back as that version, whatever follows it:
/// for every version of two digits, the parser takes exactly the text and
/// leaves the rest.
pub proof fn lemma_version_round_trip(v: Version, tail: Seq<u8>)
    requires
        v.is_written_with_digits(),
    ensures
        spec_version(v.text() + tail) == Parse::Done(tail, v),
{
    let s = v.text() + tail;
    let sip = seq!['S' as u8, 'I' as u8, 'P' as u8];
    assert(s.skip(3).skip(1).skip(1).skip(1).skip(1) =~= tail);
    assert(s.take(3) =~= sip);
}

} // verus!
