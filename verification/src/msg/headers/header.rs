//! A header as it stands in a message.

use vstd::prelude::*;

verus! {

/// A header that the library knows.
pub struct Header {}

/// A header that the library carries along without reading it.
pub struct IgnoredHeader<'name, 'value> {
    pub name: &'name [u8],
    pub value: &'value [u8],
}

} // verus!
