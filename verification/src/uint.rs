//! The integer type and its storage.

use crate::bytes::{resized, saturated, value, zero_from, zeros};
use crate::canonical::{
    lemma_significant_len, lemma_significant_len_unique, signature, significant_len, trimmed,
};
use vstd::prelude::*;

verus! {

/// An unsigned integer of unbounded size.
///
/// The number is kept as a buffer of bytes, least significant byte first.
/// The buffer may be longer than the number needs: zero bytes at its most
/// significant end are allowed, and two values are equal when their buffers
/// agree once those are dropped.
#[derive(Debug)]
pub struct DynUint {
    pub(crate) inner: Vec<u8>,
}

impl View for DynUint {
    type V = Seq<u8>;

    /// The buffer, least significant byte first.
    open(crate) spec fn view(&self) -> Seq<u8> {
        self.inner@
    }
}

impl Clone for DynUint {
    fn clone(&self) -> (r: Self)
        ensures
            r@ == self@,
    {
        DynUint { inner: self.inner.clone() }
    }
}

impl DynUint {
    /// The number that the buffer denotes.
    pub open spec fn value(&self) -> nat {
        value(self@)
    }

    /// An empty buffer, which denotes zero. Room for `capacity` bytes is
    /// set aside where the allocator grants it; the value is the same where
    /// it does not.
    pub fn new(capacity: usize) -> (r: Self)
        ensures
            r@ == Seq::<u8>::empty(),
    {
        let mut inner: Vec<u8> = Vec::new();
        let _ = inner.try_reserve(capacity);
        DynUint { inner }
    }

    /// Zero, as the empty buffer.
    pub fn zero() -> (r: Self)
        ensures
            r@ == Seq::<u8>::empty(),
    {
        DynUint { inner: Vec::new() }
    }

    /// The length of the buffer, which may exceed the canonical length.
    pub fn len(&self) -> (n: usize)
        ensures
            n == self@.len(),
    {
        self.inner.len()
    }

    /// Whether the buffer holds no byte at all.
    pub fn is_empty(&self) -> (b: bool)
        ensures
            b == (self@.len() == 0),
    {
        self.len() == 0
    }

    /// Orders two operands as (long, short) by buffer length. Where the
    /// lengths are the same the second operand is the short one.
    pub fn get_ls<'a>(lhs: &'a DynUint, rhs: &'a DynUint) -> (r: (&'a DynUint, &'a DynUint))
        ensures
            lhs@.len() >= rhs@.len() ==> r == (lhs, rhs),
            lhs@.len() < rhs@.len() ==> r == (rhs, lhs),
    {
        if lhs.len() >= rhs.len() {
            (lhs, rhs)
        } else {
            (rhs, lhs)
        }
    }

    /// As `get_ls`, on operands that are given away.
    pub fn get_ls_owned(lhs: DynUint, rhs: DynUint) -> (r: (DynUint, DynUint))
        ensures
            lhs@.len() >= rhs@.len() ==> r == (lhs, rhs),
            lhs@.len() < rhs@.len() ==> r == (rhs, lhs),
    {
        if lhs.len() >= rhs.len() {
            (lhs, rhs)
        } else {
            (rhs, lhs)
        }
    }

    /// The index of the highest nonzero byte together with that byte, or
    /// `None` where the buffer holds no nonzero byte.
    pub fn get_last_nzero(&self) -> (r: Option<(usize, &u8)>)
        ensures
            r is None <==> significant_len(self@) == 0,
            r is Some ==> r->Some_0.0 < self@.len(),
            r is Some ==> r->Some_0.0 + 1 == significant_len(self@),
            r is Some ==> *r->Some_0.1 == self@[r->Some_0.0 as int],
    {
        let mut i: usize = self.inner.len();
        while i > 0
            invariant
                i <= self@.len(),
                zero_from(self@, i as int),
            decreases i,
        {
            i -= 1;
            if self.inner[i] > 0 {
                proof {
                    lemma_significant_len_unique(self@, i + 1);
                }
                return Some((i, &self.inner[i]));
            }
        }
        proof {
            lemma_significant_len_unique(self@, 0);
        }
        None
    }

    /// The signature by which values are ordered: the index of the highest
    /// nonzero byte and that byte, or `(0, 0)` where there is none.
    pub fn last_nzero(&self) -> (r: (usize, &u8))
        ensures
            r.0 == signature(self@).0,
            *r.1 == signature(self@).1,
    {
        match self.get_last_nzero() {
            Some(found) => found,
            None => (0, &0),
        }
    }

    /// Brings the buffer into canonical form: everything after the highest
    /// nonzero byte is dropped, and a buffer without a nonzero byte becomes
    /// empty.
    pub fn removed_trailing(&mut self) -> (r: &Self)
        ensures
            final(self)@ == trimmed(old(self)@),
            r@ == final(self)@,
    {
        let len = self.inner.len();
        let keep: usize = match self.get_last_nzero() {
            Some((i, _)) => i + 1,
            None => 0,
        };
        proof {
            lemma_significant_len(self@);
        }
        assert(keep <= len);
        self.inner.truncate(keep);
        self
    }

    /// Sets the length of the buffer to `size`. New bytes are zero. Bytes
    /// are dropped only where all of them are zero; otherwise the number
    /// does not fit in `size` bytes and the buffer is set to the largest
    /// number that does.
    ///
    /// No buffer is longer than `isize::MAX` bytes, so `size` may not be.
    pub fn resize(&mut self, size: usize)
        requires
            size <= isize::MAX,
        ensures
            final(self)@ == resized(old(self)@, size as nat),
    {
        let len = self.inner.len();
        if size >= len {
            self.inner.resize(size, 0);
            assert(self@ =~= old(self)@ + zeros((size - len) as nat));
        } else {
            let lossy = match self.get_last_nzero() {
                Some((i, _)) => i >= size,
                None => false,
            };
            proof {
                lemma_significant_len(self@);
            }
            self.inner.truncate(size);
            if lossy {
                let mut i: usize = 0;
                while i < size
                    invariant
                        i <= size,
                        self@.len() == size,
                        forall|j: int| 0 <= j < i ==> self@[j] == 255,
                    decreases size - i,
                {
                    self.inner[i] = 255;
                    i += 1;
                }
                assert(self@ =~= saturated(size as nat));
                assert(!zero_from(old(self)@, size as int)) by {
                    let top = significant_len(old(self)@) - 1;
                    assert(old(self)@[top] != 0);
                }
            }
        }
    }
}

} // verus!
