//! A put-back adapter: yields the elements of a sequence one at a time, in a
//! fixed orientation chosen at construction, and lets the caller unconsume a
//! single element so that the next pull returns it again.

use vstd::prelude::*;

verus! {

/// Iterates over `items` from `pos` on, with a one-slot buffer holding an
/// element that was put back and is returned before anything else.
pub struct PutBack<T> {
    items: Vec<T>,
    pos: usize,
    pending: Option<T>,
}

impl<T: Copy> PutBack<T> {
    /// The cursor never runs past the end of the wrapped sequence.
    pub closed spec fn wf(self) -> bool {
        self.pos <= self.items@.len()
    }

    /// The elements still to be yielded, in order: the pending element first
    /// if there is one, then the unconsumed rest of the wrapped sequence.
    pub closed spec fn remaining(self) -> Seq<T> {
        match self.pending {
            Some(v) => seq![v] + self.items@.skip(self.pos as int),
            None => self.items@.skip(self.pos as int),
        }
    }

    /// The one-slot buffer is empty, so an element may be put back.
    pub closed spec fn slot_free(self) -> bool {
        self.pending is None
    }

    /// Wraps a sequence; its elements are yielded front to back.
    pub fn new(items: Vec<T>) -> (r: Self)
        ensures
            r.wf(),
            r.slot_free(),
            r.remaining() == items@,
    {
        let r = PutBack { items, pos: 0, pending: None };
        proof {
            assert(r.remaining() =~= r.items@);
        }
        r
    }

    /// Yields the next element: the put-back one if present, else the next
    /// unconsumed element of the wrapped sequence; `None` once exhausted.
    pub fn next(&mut self) -> (r: Option<T>)
        requires
            old(self).wf(),
        ensures
            final(self).wf(),
            final(self).slot_free(),
            old(self).remaining().len() == 0 ==> r is None && final(self).remaining()
                == old(self).remaining(),
            old(self).remaining().len() > 0 ==> r == Some(old(self).remaining()[0])
                && final(self).remaining() == old(self).remaining().skip(1),
    {
        match self.pending {
            Some(v) => {
                self.pending = None;
                proof {
                    assert(final(self).remaining() =~= old(self).remaining().skip(1));
                }
                Some(v)
            },
            None => {
                if self.pos < self.items.len() {
                    let v = self.items[self.pos];
                    self.pos = self.pos + 1;
                    proof {
                        assert(final(self).remaining() =~= old(self).remaining().skip(1));
                        assert(v == old(self).remaining()[0]);
                    }
                    Some(v)
                } else {
                    proof {
                        assert(old(self).remaining().len() == 0);
                    }
                    None
                }
            },
        }
    }

    /// Makes `item` the next element returned by `next`. The one buffer slot
    /// must be free: only one element is ever pending at a time.
    pub fn put_back(&mut self, item: T)
        requires
            old(self).wf(),
            old(self).slot_free(),
        ensures
            final(self).wf(),
            final(self).remaining() == seq![item] + old(self).remaining(),
    {
        self.pending = Some(item);
    }
}

} // verus!
