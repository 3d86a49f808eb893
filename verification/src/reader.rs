//! A bounded lookahead window over a forward-only element source.

use vstd::prelude::*;

verus! {

/// A fixed-capacity lookahead window over a forward-only element source.
///
/// The source is the materialized sequence `src`; elements are pulled from
/// it one at a time (`pos` marks the next element to pull) and held in the
/// circular buffer `buf` of capacity `L`.  `i` is the slot of the front
/// element and `high` is the high-water mark: the count of buffered,
/// not-yet-consumed elements.  Once the source is exhausted the window keeps
/// draining already-buffered elements, so end of input is never reported
/// while an unconsumed element remains.
pub struct Reader<T, const L: usize> {
    src: Vec<T>,
    pos: usize,
    buf: Vec<T>,
    i: usize,
    high: usize,
    curr: Option<T>,
}

impl<T: Copy, const L: usize> Reader<T, L> {
    /// The buffered elements, front first.
    pub closed spec fn buffered(self) -> Seq<T> {
        Seq::new(
            self.high as nat,
            |k: int|
                if self.i + k < L {
                    self.buf@[self.i + k]
                } else {
                    self.buf@[self.i + k - L]
                },
        )
    }

    /// Every element not yet consumed: the buffered window followed by the
    /// part of the source not yet pulled.
    pub closed spec fn remaining(self) -> Seq<T> {
        self.buffered() + self.src@.skip(self.pos as int)
    }

    /// The element most recently returned by `next`, if any.
    pub closed spec fn current(self) -> Option<T> {
        self.curr
    }

    /// Internal consistency of the window.
    pub closed spec fn wf(self) -> bool {
        &&& 0 < L
        &&& self.i < L
        &&& self.high <= L
        &&& self.high <= self.pos
        &&& self.buf@.len() <= L
        &&& self.pos <= self.src@.len()
        &&& self.src@.len() <= usize::MAX
        &&& (self.high < L ==> self.pos == self.src@.len())
        &&& (self.buf@.len() < L ==> self.i + self.high <= self.buf@.len())
    }

    /// The window never holds more elements than the source had.
    pub proof fn lemma_remaining_bounded(self)
        requires
            self.wf(),
        ensures
            self.remaining().len() <= usize::MAX,
    {
    }

    /// Build a window over `src`, pulling up to `L` elements to fill it.
    pub fn new(src: Vec<T>) -> (r: Self)
        requires
            0 < L,
        ensures
            r.wf(),
            r.remaining() == src@,
            r.current() is None,
    {
        let n = src.len();
        let mut buf: Vec<T> = Vec::new();
        let mut pos: usize = 0;
        while pos < n && pos < L
            invariant
                n == src@.len(),
                pos <= n,
                pos <= L,
                buf@ =~= src@.take(pos as int),
            decreases L - pos,
        {
            buf.push(src[pos]);
            pos += 1;
        }
        let r = Reader { src, pos, buf, i: 0, high: pos, curr: None };
        proof {
            assert(r.buffered() =~= r.src@.take(pos as int));
            assert(r.remaining() =~= r.src@);
        }
        r
    }

    /// Report the element `n` positions ahead of the current position
    /// without consuming anything; absent if fewer than `n + 1` elements
    /// remain or `n` falls outside the window.
    pub fn peek(&self, n: usize) -> (r: Option<T>)
        requires
            self.wf(),
        ensures
            r == (if n < L && (n as int) < self.remaining().len() {
                Some(self.remaining()[n as int])
            } else {
                None::<T>
            }),
    {
        if n >= L || n >= self.high {
            None
        } else {
            let idx = if n < L - self.i { self.i + n } else { n - (L - self.i) };
            Some(self.buf[idx])
        }
    }

    /// The element most recently returned by `next`, if any.
    pub fn curr(&self) -> (r: Option<T>)
        ensures
            r == self.current(),
    {
        self.curr
    }

    /// Consume and return the front element, pulling one replacement from
    /// the source if one is available; record the result as current.
    pub fn next(&mut self) -> (r: Option<T>)
        requires
            old(self).wf(),
        ensures
            final(self).wf(),
            final(self).current() == r,
            old(self).remaining().len() == 0 ==> r is None && final(self).remaining()
                == old(self).remaining(),
            old(self).remaining().len() > 0 ==> r == Some(old(self).remaining()[0])
                && final(self).remaining() == old(self).remaining().skip(1),
    {
        let item = self._next();
        self.curr = item;
        item
    }

    /// Consume and return the front element, refilling the window with at
    /// most one element pulled from the source.
    fn _next(&mut self) -> (r: Option<T>)
        requires
            old(self).wf(),
        ensures
            final(self).wf(),
            final(self).current() == old(self).current(),
            old(self).remaining().len() == 0 ==> r is None && final(self).remaining()
                == old(self).remaining(),
            old(self).remaining().len() > 0 ==> r == Some(old(self).remaining()[0])
                && final(self).remaining() == old(self).remaining().skip(1),
    {
        if self.high == 0 {
            None
        } else {
            let ghost pre = *self;
            let r = self.buf[self.i];
            self.i = if self.i + 1 == L { 0 } else { self.i + 1 };
            self.high = self.high - 1;
            proof {
                assert forall|k: int| 0 <= k < self.high implies self.buffered()[k]
                    == pre.buffered()[k + 1] by {}
                assert(self.buffered() =~= pre.buffered().skip(1));
            }
            if self.pos < self.src.len() {
                let ghost mid = *self;
                let s = if self.high < L - self.i {
                    self.i + self.high
                } else {
                    self.high - (L - self.i)
                };
                let v = self.src[self.pos];
                self.buf.set(s, v);
                self.pos = self.pos + 1;
                self.high = self.high + 1;
                proof {
                    assert forall|k: int| 0 <= k < self.high - 1 implies self.buffered()[k]
                        == mid.buffered()[k] by {
                        assert(self.i + k < L || self.i + k - L < self.i);
                    }
                    assert(self.buffered()[self.high - 1] == v);
                    assert(self.buffered() =~= mid.buffered().push(v));
                    assert(self.remaining() =~= pre.remaining().skip(1));
                }
            } else {
                proof {
                    assert(self.remaining() =~= pre.remaining().skip(1));
                }
            }
            proof {
                assert(pre.remaining()[0] == pre.buffered()[0]);
            }
            Some(r)
        }
    }
}

} // verus!
