//! Writing text into a caller's buffer.

use vstd::prelude::*;

verus! {

/// `std::io::Error`, the error of the standard library's writers. The
/// encoders report their failures with it as those writers do; nothing is
/// claimed of its values.
#[verifier::external_type_specification]
#[verifier::external_body]
pub struct ExIoError(std::io::Error);

/// `std::io::Error::from` on `std::io::ErrorKind::WriteZero`: the error of a
/// writer that could not take the whole of a text. Nothing is claimed of it.
#[verifier::external_body]
pub(crate) fn short_buffer() -> (e: std::io::Error) {
    std::io::Error::from(std::io::ErrorKind::WriteZero)
}

/// `std::io::Error::from` on `std::io::ErrorKind::InvalidInput`: the error
/// for a value that has no text. Nothing is claimed of it.
#[verifier::external_body]
pub(crate) fn no_text() -> (e: std::io::Error) {
    std::io::Error::from(std::io::ErrorKind::InvalidInput)
}

/// The number of bytes of `text` that a buffer of `room` bytes takes.
pub open spec fn taken(room: nat, text: Seq<u8>) -> usize {
    if text.len() <= room {
        text.len() as usize
    } else {
        room as usize
    }
}

/// The buffer after `text` was written to its front as far as there is room.
pub open spec fn filled(before: Seq<u8>, after: Seq<u8>, text: Seq<u8>, n: usize) -> bool {
    &&& after.len() == before.len()
    &&& n == taken(before.len(), text)
    &&& forall|i: int| 0 <= i < n ==> after[i] == text[i]
    &&& forall|i: int| n <= i < before.len() ==> after[i] == before[i]
}

/// Copies `text` to the front of `buf` as far as there is room, and says how
/// many bytes it copied.
pub fn fill(buf: &mut [u8], text: &[u8]) -> (n: usize)
    ensures
        filled(old(buf)@, final(buf)@, text@, n),
{
    let n = if text.len() <= buf.len() { text.len() } else { buf.len() };
    let mut i: usize = 0;
    while i < n
        invariant
            i <= n,
            n <= text@.len(),
            n <= buf@.len(),
            buf@.len() == old(buf)@.len(),
            forall|j: int| 0 <= j < i ==> buf@[j] == text@[j],
            forall|j: int| i <= j < buf@.len() ==> buf@[j] == old(buf)@[j],
        decreases n - i,
    {
        buf[i] = text[i];
        i += 1;
    }
    n
}

/// What an encoder of `text` hands back and leaves in its buffer: the length
/// of the text where the buffer has room for all of it, an error where the
/// buffer is too small. Either way the front of the buffer holds the text as
/// far as there is room, and the rest of it is as it was.
pub open spec fn emitted(
    before: Seq<u8>,
    after: Seq<u8>,
    text: Seq<u8>,
    r: Result<usize, std::io::Error>,
) -> bool {
    &&& filled(before, after, text, taken(before.len(), text))
    &&& text.len() <= before.len() ==> (r matches Ok(n) && n == text.len())
    &&& text.len() > before.len() ==> r is Err
}

/// Writes the whole of `text` to the front of `buf`, or fails where the
/// buffer is too small for it.
pub fn emit(buf: &mut [u8], text: &[u8]) -> (r: Result<usize, std::io::Error>)
    ensures
        emitted(old(buf)@, final(buf)@, text@, r),
{
    let n = fill(buf, text);
    if n < text.len() {
        Err(short_buffer())
    } else {
        Ok(n)
    }
}

} // verus!
