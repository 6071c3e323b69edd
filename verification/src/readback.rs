//! Which rendered pictures are on their way back from the graphics processor.
use vstd::prelude::*;

verus! {

/// How many pictures can be on their way at once.
pub const RING: u64 = 3;

/// The rendered frames, numbered from zero: how many were submitted, and how many
/// of their pictures were fetched, in order.
#[derive(Clone, Copy, Debug, PartialEq, Eq, Structural)]
pub struct ReadbackRing {
    pub submitted: u64,
    pub fetched: u64,
}

impl ReadbackRing {
    /// Fewer pictures are on their way than there is room for.
    pub open spec fn wf(self) -> bool {
        self.fetched <= self.submitted < self.fetched + RING
    }

    /// The frame whose picture has to be fetched when another is submitted.
    pub open spec fn due(self) -> Option<u64> {
        if self.submitted + 1 >= self.fetched + RING {
            Some(self.fetched)
        } else {
            None
        }
    }

    /// The ring once another frame was submitted and what was due was fetched.
    pub open spec fn submitted_one(self) -> ReadbackRing {
        ReadbackRing {
            submitted: (self.submitted + 1) as u64,
            fetched: if self.due() is Some {
                (self.fetched + 1) as u64
            } else {
                self.fetched
            },
        }
    }

    /// The next picture still on its way.
    pub open spec fn pending(self) -> Option<u64> {
        if self.fetched < self.submitted {
            Some(self.fetched)
        } else {
            None
        }
    }

    /// The ring once the next picture still on its way was fetched.
    pub open spec fn flushed_one(self) -> ReadbackRing {
        ReadbackRing {
            fetched: if self.pending() is Some {
                (self.fetched + 1) as u64
            } else {
                self.fetched
            },
            ..self
        }
    }

    /// A ring with nothing on its way.
    pub fn new() -> (r: ReadbackRing)
        ensures
            r == (ReadbackRing { submitted: 0, fetched: 0 }),
            r.wf(),
    {
        ReadbackRing { submitted: 0, fetched: 0 }
    }

    /// The frame whose picture has to be fetched when another is submitted.
    pub fn frame_due(&self) -> (r: Option<u64>)
        requires
            self.wf(),
        ensures
            r == self.due(),
    {
        if self.submitted - self.fetched == RING - 1 {
            Some(self.fetched)
        } else {
            None
        }
    }

    /// Counts a submitted frame, and the picture that was due as fetched.
    pub fn submit(&mut self)
        requires
            old(self).wf(),
            old(self).submitted < u64::MAX,
        ensures
            *final(self) == old(self).submitted_one(),
            final(self).wf(),
    {
        if self.submitted - self.fetched == RING - 1 {
            self.fetched = self.fetched + 1;
        }
        self.submitted = self.submitted + 1;
    }

    /// Hands out the next picture still on its way, if there is one.
    pub fn flush(&mut self) -> (r: Option<u64>)
        requires
            old(self).wf(),
        ensures
            r == old(self).pending(),
            *final(self) == old(self).flushed_one(),
            final(self).wf(),
    {
        if self.fetched < self.submitted {
            self.fetched = self.fetched + 1;
            Some(self.fetched - 1)
        } else {
            None
        }
    }
}

/// The ring after `n` frames, none of which was flushed.
pub open spec fn after_frames(n: nat) -> ReadbackRing
    decreases n,
{
    if n == 0 {
        ReadbackRing { submitted: 0, fetched: 0 }
    } else {
        after_frames((n - 1) as nat).submitted_one()
    }
}

/// The first two frames hand out nothing; from the third on every frame hands out
/// the picture of the one two before it.
pub proof fn law_pictures_lag_by_two(n: nat)
    requires
        n < u64::MAX,
    ensures
        after_frames(n).wf(),
        after_frames(n).submitted == n,
        after_frames(n).fetched == (if n < 2 {
            0
        } else {
            n - 2
        }),
        after_frames(n).due() == (if n < 2 {
            None
        } else {
            Some((n - 2) as u64)
        }),
    decreases n,
{
    if n > 0 {
        law_pictures_lag_by_two((n - 1) as nat);
    }
}

/// What is still on its way after the last frame is handed out in order, and then
/// nothing more: every picture is handed out once.
pub proof fn law_flushing_drains(ring: ReadbackRing)
    requires
        ring.wf(),
    ensures
        ring.pending() is Some ==> ring.pending() == Some(ring.fetched)
            && ring.flushed_one().fetched == ring.fetched + 1,
        ring.flushed_one().flushed_one().pending() is None,
        ring.flushed_one().flushed_one().fetched == ring.submitted,
{
}

} // verus!
