//! Decoders for the textual elements of SIP addressing: literal addresses,
//! host names, parameter lists, user information, methods and versions.
//!
//! Every parser reads a borrowed byte slice and hands back the value it
//! recognised together with the bytes it did not consume, or a failure that
//! says where and why it stopped. Lists are written into arrays that the
//! caller owns, and an array that is too short is a failure of its own kind.
//! Each parser is specified by a function over byte sequences, in
//! `msg::abnf::outcome` terms, and proved to compute exactly that function.
//!
//! `msg::abnf` holds the grammar, from character classes up to parameter
//! lists and the user part of a URI; `msg::method` and `msg::version` read
//! and write the two tokens of a request line; `msg::id` makes identifiers
//! out of arbitrary bytes; `sip_abnf` offers the character classes as tests
//! on chunks of input.

pub mod msg;
pub mod sip_abnf;
