//! A window over a caller's array that is filled from the front.

use vstd::prelude::*;

verus! {

/// A bounded output: a borrowed array and the number of places filled.
pub struct Buffer<'a, T> {
    buf: &'a mut [T],
    num_pushed: usize,
}

impl<'a, T> Buffer<'a, T> {
    /// The filled places never pass the end of the array.
    #[verifier::type_invariant]
    spec fn well_formed(self) -> bool {
        self.num_pushed <= self.buf@.len()
    }

    /// The values pushed so far, the first one first.
    pub closed spec fn pushed(self) -> Seq<T> {
        self.buf@.take(self.num_pushed as int)
    }

    /// The number of places that are still free.
    pub closed spec fn free(self) -> nat {
        (self.buf@.len() - self.num_pushed) as nat
    }

    /// An empty buffer over the whole of `buf`.
    pub fn new(buf: &'a mut [T]) -> (r: Buffer<'a, T>)
        ensures
            r.pushed() == Seq::<T>::empty(),
            r.free() == old(buf)@.len(),
    {
        Buffer { buf, num_pushed: 0 }
    }

    /// The number of values that can still be pushed.
    pub fn capacity(&self) -> (n: usize)
        ensures
            n == self.free(),
    {
        proof {
            use_type_invariant(self);
        }
        self.buf.len() - self.num_pushed
    }

    /// Puts `value` behind the values pushed so far. Where no place is free
    /// the buffer stays as it is and the value comes back.
    pub fn push(&mut self, value: T) -> (r: Option<T>)
        ensures
            old(self).free() == 0 ==> r == Some(value) && *final(self) == *old(self),
            old(self).free() > 0 ==> r is None && final(self).pushed() == old(self).pushed().push(
                value,
            ) && final(self).free() == old(self).free() - 1,
    {
        proof {
            use_type_invariant(&*self);
        }
        if self.capacity() == 0 {
            return Some(value);
        }
        self.buf[self.num_pushed] = value;
        self.num_pushed += 1;
        None
    }

    /// Hands out the values pushed so far, and a new empty buffer over the
    /// places that are still free.
    pub fn commit(self) -> (r: (Buffer<'a, T>, &'a [T]))
        ensures
            r.1@ == self.pushed(),
            r.0.pushed() == Seq::<T>::empty(),
            r.0.free() == self.free(),
    {
        proof {
            use_type_invariant(&self);
        }
        let Buffer { buf, num_pushed } = self;
        let (filled, left) = buf.split_at_mut(num_pushed);
        (Buffer::new(left), filled)
    }
}

/// A buffer of spans of an input.
pub type BinaryBuffer<'a, 'b> = Buffer<'a, &'b [u8]>;

/// What a step of a parser hands on: a value with what is left and what
/// goes along, or a code with what goes along.
pub enum Result<T, Rest, Code, Add> {
    Done(T, Rest, Add),
    Error(Code, Add),
}

} // verus!
