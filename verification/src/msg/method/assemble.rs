//! Writing a method.

use vstd::prelude::*;
use vstd::array::array_as_slice;
use vstd::slice::slice_subrange;
use crate::msg::assemble::{emit, emitted};
use crate::msg::method::{fixed_text, Method};

verus! {

/// Writes the text of `m` to the front of `buf` and says how long it is. A
/// buffer that is too small for the text is an error; the buffer then holds
/// the front of the text.
pub fn method(m: Method<'_>, buf: &mut [u8]) -> (r: Result<usize, std::io::Error>)
    ensures
        emitted(old(buf)@, final(buf)@, m@.text(), r),
{
    match m {
        Method::Token(token) => emit(buf, token),
        _ => {
            let (text, n) = fixed_text(m);
            emit(buf, slice_subrange(array_as_slice(&text), 0, n))
        },
    }
}

} // verus!
