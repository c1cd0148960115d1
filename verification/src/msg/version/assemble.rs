//! Writing a version.

use vstd::prelude::*;
use crate::msg::assemble::{emit, emitted, no_text};
use crate::msg::version::Version;

verus! {

/// Writes the text of `v` to the front of `buf` and says how long it is. A
/// version with a number that is no single digit has no text: that is an
/// error, and the buffer stays as it was. A buffer that is too small for the
/// text is an error too; the buffer then holds the front of the text.
pub fn version(v: Version, buf: &mut [u8]) -> (r: Result<usize, std::io::Error>)
    ensures
        v.is_written_with_digits() ==> emitted(old(buf)@, final(buf)@, v.text(), r),
        !v.is_written_with_digits() ==> r is Err && final(buf)@ == old(buf)@,
{
    if v.0 > 9 || v.1 > 9 {
        return Err(no_text());
    }
    let text = [
        'S' as u8,
        'I' as u8,
        'P' as u8,
        '/' as u8,
        '0' as u8 + v.0,
        '.' as u8,
        '0' as u8 + v.1,
    ];
    assert(text@ =~= v.text());
    emit(buf, &text)
}

} // verus!
