//! Bookkeeping of the two frame buffers that decoded frames are handed over
//! in, one per parity of the frame index.

use vstd::prelude::*;

verus! {

/// The buffer of frame `id`.
pub open spec fn parity(id: usize) -> int {
    (id % 2) as int
}

/// For each buffer, the frame it holds and the frame being decoded into it.
pub struct FrameSlots {
    resident: [Option<usize>; 2],
    pending: [Option<usize>; 2],
}

impl FrameSlots {
    /// The frame that buffer `p` holds.
    pub closed spec fn resident_in(&self, p: int) -> Option<usize> {
        self.resident@[p]
    }

    /// The frame being decoded into buffer `p`.
    pub closed spec fn pending_in(&self, p: int) -> Option<usize> {
        self.pending@[p]
    }

    /// Both buffers empty and idle.
    pub fn new() -> (s: Self)
        ensures
            forall|p: int| 0 <= p < 2 ==> s.resident_in(p).is_none() && s.pending_in(p).is_none(),
    {
        FrameSlots { resident: [None, None], pending: [None, None] }
    }

    /// Asks for frame `id`. Where its buffer holds it already or is decoding
    /// it, nothing changes and the answer is `false`; else the buffer starts
    /// decoding it, in place of any other frame in flight, and the answer is
    /// `true`.
    pub fn begin(&mut self, id: usize) -> (start: bool)
        ensures
            start == (old(self).resident_in(parity(id)) != Some(id) && old(self).pending_in(
                parity(id),
            ) != Some(id)),
            final(self).pending_in(parity(id)) == if start {
                Some(id)
            } else {
                old(self).pending_in(parity(id))
            },
            final(self).resident_in(parity(id)) == old(self).resident_in(parity(id)),
            final(self).resident_in(1 - parity(id)) == old(self).resident_in(1 - parity(id)),
            final(self).pending_in(1 - parity(id)) == old(self).pending_in(1 - parity(id)),
    {
        let p = id % 2;
        if self.resident[p] == Some(id) || self.pending[p] == Some(id) {
            false
        } else {
            self.pending.set(p, Some(id));
            true
        }
    }

    /// Frame `id` is decoded. Where its buffer still waits for it, the buffer
    /// now holds it and the answer is `true`; a result that nobody waits for
    /// any more changes nothing and the answer is `false`.
    pub fn finish(&mut self, id: usize) -> (publish: bool)
        ensures
            publish == (old(self).pending_in(parity(id)) == Some(id)),
            final(self).resident_in(parity(id)) == if publish {
                Some(id)
            } else {
                old(self).resident_in(parity(id))
            },
            final(self).pending_in(parity(id)) == if publish {
                None
            } else {
                old(self).pending_in(parity(id))
            },
            final(self).resident_in(1 - parity(id)) == old(self).resident_in(1 - parity(id)),
            final(self).pending_in(1 - parity(id)) == old(self).pending_in(1 - parity(id)),
    {
        let p = id % 2;
        if self.pending[p] == Some(id) {
            self.resident.set(p, Some(id));
            self.pending.set(p, None);
            true
        } else {
            false
        }
    }

    /// Frame `id` could not be decoded: its buffer stops waiting for it.
    pub fn abandon(&mut self, id: usize)
        ensures
            final(self).pending_in(parity(id)) == if old(self).pending_in(parity(id)) == Some(id) {
                None
            } else {
                old(self).pending_in(parity(id))
            },
            final(self).resident_in(parity(id)) == old(self).resident_in(parity(id)),
            final(self).resident_in(1 - parity(id)) == old(self).resident_in(1 - parity(id)),
            final(self).pending_in(1 - parity(id)) == old(self).pending_in(1 - parity(id)),
    {
        let p = id % 2;
        if self.pending[p] == Some(id) {
            self.pending.set(p, None);
        }
    }

    /// Whether frame `id` is in its buffer.
    pub fn holds(&self, id: usize) -> (r: bool)
        ensures
            r == (self.resident_in(parity(id)) == Some(id)),
    {
        self.resident[id % 2] == Some(id)
    }
}

} // verus!
