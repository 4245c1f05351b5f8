//! A bounded newest-first sample buffer for the download-speed estimate.

use vstd::prelude::*;

verus! {

/// Holds the most recent completion-count samples, newest first, up to a
/// fixed capacity.
pub struct RingBuffer {
    buf: Vec<u32>,
    capacity: usize,
}

impl RingBuffer {
    /// The samples, newest first.
    pub closed spec fn view(&self) -> Seq<u32> {
        self.buf@
    }

    /// The sample capacity the buffer was created with.
    pub closed spec fn spec_capacity(&self) -> int {
        self.capacity as int
    }

    /// An empty buffer with the given capacity.
    pub fn new(capacity: usize) -> (r: RingBuffer)
        ensures
            r@ == Seq::<u32>::empty(),
            r.spec_capacity() == capacity,
    {
        RingBuffer { buf: Vec::new(), capacity }
    }

    /// Records the newest sample at the front, dropping the oldest sample
    /// once the buffer is full.
    pub fn push(&mut self, val: u32)
        ensures
            final(self).spec_capacity() == old(self).spec_capacity(),
            final(self)@ == seq![val] + (if old(self)@.len() == old(self).spec_capacity()
                && old(self)@.len() > 0 {
                old(self)@.drop_last()
            } else {
                old(self)@
            }),
    {
        let ghost orig = self.buf@;
        if self.buf.len() == self.capacity && self.buf.len() > 0 {
            self.buf.pop();
            proof {
                assert(self.buf@ =~= orig.drop_last());
            }
        }
        let ghost mid = self.buf@;
        self.buf.insert(0, val);
        proof {
            assert(self.buf@ =~= seq![val] + mid);
        }
    }

    /// Total growth across the held samples: the sum of the differences of
    /// adjacent samples, which telescopes to newest minus oldest.  The
    /// samples are completion counts, so each is at least its successor.
    pub fn delta_total(&self) -> (r: u32)
        requires
            forall|i: int| 0 <= i < self@.len() - 1 ==> #[trigger] self@[i] >= self@[i + 1],
        ensures
            r == if self@.len() == 0 {
                0int
            } else {
                self@[0] - self@[self@.len() - 1]
            },
    {
        let len = self.buf.len();
        if len == 0 {
            return 0;
        }
        let newest = self.buf[0];
        let mut total: u32 = 0;
        let mut i: usize = 0;
        while i < len - 1
            invariant
                i <= len - 1,
                len == self@.len(),
                len >= 1,
                newest == self@[0],
                forall|t: int| 0 <= t < self@.len() - 1 ==> #[trigger] self@[t] >= self@[t + 1],
                total == self@[0] - self@[i as int],
            decreases len - 1 - i,
        {
            proof {
                lemma_monotone_prefix(self@, i as int);
                lemma_monotone_prefix(self@, i as int + 1);
            }
            total = total + (self.buf[i] - self.buf[i + 1]);
            i = i + 1;
        }
        total
    }
}

/// In a non-increasing sequence, the first entry bounds every later one.
proof fn lemma_monotone_prefix(s: Seq<u32>, i: int)
    requires
        0 <= i < s.len(),
        forall|t: int| 0 <= t < s.len() - 1 ==> #[trigger] s[t] >= s[t + 1],
    ensures
        s[0] >= s[i],
    decreases i,
{
    if i > 0 {
        lemma_monotone_prefix(s, i - 1);
    }
}

} // verus!
