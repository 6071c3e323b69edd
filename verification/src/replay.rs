//! The last seconds of what was rendered, kept for replay.
use crate::double::F64;
use crate::single::F32;
use crate::world::ViewportPosition;
use vstd::prelude::*;

verus! {

/// Nanoseconds in a second.
pub const NANOS_PER_SEC: u64 = 1_000_000_000;

/// Nanoseconds in a millisecond.
pub const NANOS_PER_MILLI: u64 = 1_000_000;

/// A length of time, or the time since some beginning: whole seconds and less
/// than a second in nanoseconds.
#[derive(Clone, Copy, Debug, PartialEq, Eq, Structural)]
pub struct Duration {
    pub secs: u64,
    pub nanos: u32,
}

impl View for Duration {
    type V = nat;

    /// All of it in nanoseconds.
    open spec fn view(&self) -> nat {
        (self.secs * NANOS_PER_SEC + self.nanos) as nat
    }
}

impl Duration {
    /// Less than a second is in nanoseconds.
    pub open spec fn wf(self) -> bool {
        self.nanos < NANOS_PER_SEC
    }

    /// No time at all.
    pub fn zero() -> (r: Duration)
        ensures
            r.wf(),
            r@ == 0,
    {
        Duration { secs: 0, nanos: 0 }
    }

    /// Whole seconds.
    pub fn from_secs(secs: u64) -> (r: Duration)
        ensures
            r.wf(),
            r@ == secs * NANOS_PER_SEC,
    {
        Duration { secs, nanos: 0 }
    }

    /// Whole milliseconds.
    pub fn from_millis(millis: u64) -> (r: Duration)
        ensures
            r.wf(),
            r@ == millis * NANOS_PER_MILLI,
    {
        let nanos: u64 = (millis % 1000) * NANOS_PER_MILLI;
        Duration { secs: millis / 1000, nanos: nanos as u32 }
    }

    /// Whether one is shorter than the other.
    pub fn shorter(&self, other: &Duration) -> (r: bool)
        requires
            self.wf(),
            other.wf(),
        ensures
            r == (self@ < other@),
    {
        self.secs < other.secs || (self.secs == other.secs && self.nanos < other.nanos)
    }

    /// What is left after taking away another length; nothing where the other
    /// is longer.
    pub fn less(&self, other: &Duration) -> (r: Duration)
        requires
            self.wf(),
            other.wf(),
        ensures
            r.wf(),
            r@ == if self@ >= other@ {
                (self@ - other@) as nat
            } else {
                0
            },
    {
        if self.shorter(other) {
            Duration::zero()
        } else if self.nanos >= other.nanos {
            Duration { secs: self.secs - other.secs, nanos: self.nanos - other.nanos }
        } else {
            let nanos: u64 = NANOS_PER_SEC + self.nanos as u64 - other.nanos as u64;
            Duration { secs: self.secs - other.secs - 1, nanos: nanos as u32 }
        }
    }

    /// In seconds, as a double.
    pub open spec fn seconds_double(self) -> F64 {
        F64::of_whole(self.secs as nat).plus(
            F64::of_whole(self.nanos as nat).over(F64::of_whole(NANOS_PER_SEC as nat)),
        )
    }

    /// In seconds, as a single.
    pub open spec fn seconds_single(self) -> F32 {
        F32::of_whole(self.secs as nat).plus(
            F32::of_whole(self.nanos as nat).over(F32::of_whole(NANOS_PER_SEC as nat)),
        )
    }

    /// In seconds, as a double.
    pub fn as_secs_f64(&self) -> (r: F64)
        ensures
            r == self.seconds_double(),
    {
        let part = F64::from_whole(self.nanos as u64).div(F64::from_whole(NANOS_PER_SEC));
        F64::from_whole(self.secs).add(part)
    }

    /// In seconds, as a single.
    pub fn as_secs_f32(&self) -> (r: F32)
        ensures
            r == self.seconds_single(),
    {
        let part = F32::from_whole(self.nanos as u64).div(F32::from_whole(NANOS_PER_SEC));
        F32::from_whole(self.secs).add(part)
    }
}

/// What came of submitting a frame.
#[derive(Clone, Copy, Debug)]
pub enum RenderOutcome<'a> {
    /// The first frames are still on their way.
    Warmup,
    /// The pixels of a frame.
    Rgba(&'a [u8]),
}

/// A rendered frame.
#[derive(Clone, Debug)]
pub struct ReplayFrame {
    pub rgba: Vec<u8>,
    /// When it was taken, from the beginning of the session.
    pub captured_at: Duration,
    pub pose: ViewportPosition,
}

/// A rendered frame: its pixels, the time, and the pose.
pub ghost struct Shot {
    pub rgba: Seq<u8>,
    pub at: nat,
    pub pose: ViewportPosition,
}

impl View for ReplayFrame {
    type V = Shot;

    open spec fn view(&self) -> Shot {
        Shot { rgba: self.rgba@, at: self.captured_at@, pose: self.pose }
    }
}

impl ReplayFrame {
    fn copy(&self) -> (r: ReplayFrame)
        ensures
            r@ == self@,
            r.captured_at == self.captured_at,
    {
        let rgba = self.rgba.clone();
        assert(rgba@ =~= self.rgba@);
        ReplayFrame { rgba, captured_at: self.captured_at, pose: self.pose }
    }
}

/// The views of frames.
pub open spec fn shots(frames: Seq<ReplayFrame>) -> Seq<Shot> {
    frames.map_values(|f: ReplayFrame| f@)
}

/// The frames without those at the front that are older than `cutoff`.
pub open spec fn since(frames: Seq<Shot>, cutoff: nat) -> Seq<Shot>
    decreases frames.len(),
{
    if frames.len() > 0 && frames[0].at < cutoff {
        since(frames.skip(1), cutoff)
    } else {
        frames
    }
}

/// The time before which frames are too old for a window that ends at `at`.
pub open spec fn cutoff(at: nat, window: nat) -> nat {
    if at >= window {
        (at - window) as nat
    } else {
        0
    }
}

/// The frames that a window holds which ends at the newest.
pub open spec fn recent(frames: Seq<Shot>, window: nat) -> Seq<Shot> {
    if frames.len() == 0 {
        frames
    } else {
        since(frames, cutoff(frames.last().at, window))
    }
}

/// The frames of a window of the given length after another frame was added.
pub open spec fn kept(frames: Seq<Shot>, window: nat, frame: Shot) -> Seq<Shot> {
    recent(frames.push(frame), window)
}

/// The frames of the last stretch of time, from the oldest to the newest.
pub struct ReplayBuffer {
    pub frames: Vec<ReplayFrame>,
    pub window: Duration,
}

/// Frames and the window that they are kept for.
pub ghost struct Reel {
    pub shots: Seq<Shot>,
    pub window: nat,
}

impl View for ReplayBuffer {
    type V = Reel;

    open spec fn view(&self) -> Reel {
        Reel { shots: shots(self.frames@), window: self.window@ }
    }
}

impl ReplayBuffer {
    /// All times are in order in themselves, and the oldest frame lies in the
    /// window that ends at the newest.
    pub open spec fn wf(self) -> bool {
        &&& self.window.wf()
        &&& forall|i: int|
            0 <= i < self.frames@.len() ==> (#[trigger] self.frames@[i]).captured_at.wf()
        &&& self.frames@.len() > 0 ==> self.frames@[0].captured_at@ >= cutoff(
            self.frames@.last().captured_at@,
            self.window@,
        )
    }

    /// An empty buffer for a window of the given length.
    pub fn new(max_duration: Duration) -> (r: ReplayBuffer)
        requires
            max_duration.wf(),
        ensures
            r.wf(),
            r@ == (Reel { shots: Seq::empty(), window: max_duration@ }),
            r.window == max_duration,
    {
        let r = ReplayBuffer { frames: Vec::new(), window: max_duration };
        assert(r@.shots =~= Seq::<Shot>::empty());
        r
    }

    /// Lets go of the frames that are older than the window, which ends at the
    /// newest.
    fn let_go(&mut self)
        requires
            old(self).window.wf(),
            forall|i: int|
                0 <= i < old(self).frames@.len()
                    ==> (#[trigger] old(self).frames@[i]).captured_at.wf(),
        ensures
            final(self).wf(),
            final(self)@ == (Reel {
                shots: recent(old(self)@.shots, old(self).window@),
                ..old(self)@
            }),
            final(self).window == old(self).window,
    {
        if self.frames.len() == 0 {
            return;
        }
        let newest: Duration = self.frames[self.frames.len() - 1].captured_at;
        let oldest: Duration = newest.less(&self.window);
        let ghost all = self.frames@;
        let ghost whole = self@.shots;
        assert(whole.last() == all.last()@);
        let mut gone: usize = 0;
        assert(whole.skip(0) =~= whole);
        while gone < self.frames.len() && self.frames[gone].captured_at.shorter(&oldest)
            invariant
                gone < self.frames@.len(),
                oldest.wf(),
                oldest@ == cutoff(all.last().captured_at@, self.window@),
                *self == *old(self),
                self.frames@ == all,
                forall|i: int| 0 <= i < all.len() ==> (#[trigger] all[i]).captured_at.wf(),
                self@.shots == whole,
                since(whole, oldest@) == since(whole.skip(gone as int), oldest@),
            decreases self.frames@.len() - gone,
        {
            assert(whole.skip(gone as int)[0] == all[gone as int]@);
            assert(whole.skip(gone as int).skip(1) =~= whole.skip(gone + 1));
            gone += 1;
        }
        assert(whole.skip(gone as int)[0] == all[gone as int]@);
        let rest = self.frames.split_off(gone);
        self.frames = rest;
        assert(self.frames@ =~= all.skip(gone as int));
        assert(self@.shots =~= whole.skip(gone as int));
    }

    /// Adds a frame and lets go of those older than the window.
    pub fn push(&mut self, frame: ReplayFrame)
        requires
            old(self).wf(),
            frame.captured_at.wf(),
        ensures
            final(self).wf(),
            final(self)@ == (Reel {
                shots: kept(old(self)@.shots, old(self).window@, frame@),
                ..old(self)@
            }),
            final(self).window == old(self).window,
    {
        let ghost whole = self@.shots.push(frame@);
        self.frames.push(frame);
        assert(self@.shots =~= whole);
        self.let_go();
    }

    /// Changes the window, and lets go of the frames that are too old for it. A
    /// window that is no shorter keeps them all.
    pub fn resize(&mut self, max_duration: Duration)
        requires
            old(self).wf(),
            max_duration.wf(),
        ensures
            final(self).wf(),
            final(self)@ == (Reel {
                shots: recent(old(self)@.shots, max_duration@),
                window: max_duration@,
            }),
            final(self).window == max_duration,
            max_duration@ >= old(self).window@ ==> final(self)@.shots == old(self)@.shots,
    {
        let ghost before = self@.shots;
        assert(before.len() > 0 ==> before[0] == self.frames@[0]@ && before.last()
            == self.frames@.last()@);
        self.window = max_duration;
        assert(self@.shots == before);
        self.let_go();
    }

    /// How many frames there are.
    pub fn len(&self) -> (r: usize)
        ensures
            r == self@.shots.len(),
    {
        self.frames.len()
    }

    /// Whether there are none.
    pub fn is_empty(&self) -> (r: bool)
        ensures
            r == (self@.shots.len() == 0),
    {
        self.frames.len() == 0
    }

    /// The newest frame.
    pub fn latest(&self) -> (r: Option<&ReplayFrame>)
        ensures
            r is None <==> self@.shots.len() == 0,
            r matches Some(f) ==> f@ == self@.shots.last(),
    {
        if self.frames.len() == 0 {
            None
        } else {
            Some(&self.frames[self.frames.len() - 1])
        }
    }

    /// The oldest frame.
    pub fn oldest(&self) -> (r: Option<&ReplayFrame>)
        ensures
            r is None <==> self@.shots.len() == 0,
            r matches Some(f) ==> f@ == self@.shots[0],
    {
        if self.frames.len() == 0 {
            None
        } else {
            Some(&self.frames[0])
        }
    }

    /// The frames from the oldest to the newest.
    pub fn frames(&self) -> (r: &Vec<ReplayFrame>)
        ensures
            shots(r@) == self@.shots,
    {
        &self.frames
    }

    /// Copies of the frames from the oldest to the newest.
    pub fn snapshot(&self) -> (r: Vec<ReplayFrame>)
        ensures
            shots(r@) == self@.shots,
    {
        let mut copies: Vec<ReplayFrame> = Vec::new();
        let mut i: usize = 0;
        while i < self.frames.len()
            invariant
                i <= self.frames@.len(),
                copies@.len() == i,
                forall|k: int| 0 <= k < i ==> #[trigger] copies@[k]@ == self.frames@[k]@,
            decreases self.frames@.len() - i,
        {
            copies.push(self.frames[i].copy());
            i += 1;
        }
        assert(shots(copies@) =~= self@.shots);
        copies
    }

    /// Hands the frames out and leaves none.
    pub fn take(&mut self) -> (r: Vec<ReplayFrame>)
        requires
            old(self).wf(),
        ensures
            shots(r@) == old(self)@.shots,
            final(self)@ == (Reel { shots: Seq::empty(), ..old(self)@ }),
            final(self).window == old(self).window,
            final(self).wf(),
    {
        let mut out: Vec<ReplayFrame> = Vec::new();
        std::mem::swap(&mut out, &mut self.frames);
        assert(self@.shots =~= Seq::<Shot>::empty());
        out
    }

    /// Lets go of the frames.
    pub fn clear(&mut self)
        requires
            old(self).wf(),
        ensures
            final(self)@ == (Reel { shots: Seq::empty(), ..old(self)@ }),
            final(self).window == old(self).window,
            final(self).wf(),
    {
        self.frames = Vec::new();
        assert(self@.shots =~= Seq::<Shot>::empty());
    }

    /// The time from the oldest to the newest frame.
    pub open spec fn stretch(self) -> nat {
        if self@.shots.len() == 0 || self@.shots.last().at < self@.shots[0].at {
            0
        } else {
            (self@.shots.last().at - self@.shots[0].at) as nat
        }
    }

    /// The time from the oldest to the newest frame.
    pub fn buffered_duration(&self) -> (r: Duration)
        requires
            self.wf(),
        ensures
            r.wf(),
            r@ == self.stretch(),
    {
        if self.frames.len() == 0 {
            Duration::zero()
        } else {
            let newest = &self.frames[self.frames.len() - 1];
            newest.captured_at.less(&self.frames[0].captured_at)
        }
    }

    /// The length of the window.
    pub fn max_duration(&self) -> (r: Duration)
        ensures
            r == self.window,
    {
        self.window
    }
}

/// Frames come in the order of their times.
pub open spec fn in_order(frames: Seq<Shot>) -> bool {
    forall|i: int, j: int| 0 <= i <= j < frames.len() ==> frames[i].at <= frames[j].at
}

proof fn lemma_since(frames: Seq<Shot>, cutoff: nat) -> (n: int)
    requires
        in_order(frames),
    ensures
        0 <= n <= frames.len(),
        since(frames, cutoff) == frames.skip(n),
        forall|i: int| 0 <= i < n ==> (#[trigger] frames[i]).at < cutoff,
        forall|i: int| n <= i < frames.len() ==> (#[trigger] frames[i]).at >= cutoff,
    decreases frames.len(),
{
    if frames.len() > 0 && frames[0].at < cutoff {
        let rest = frames.skip(1);
        let m = lemma_since(rest, cutoff);
        assert(rest.skip(m) =~= frames.skip(m + 1));
        assert forall|i: int| 0 <= i < m + 1 implies (#[trigger] frames[i]).at < cutoff by {
            if i > 0 {
                assert(rest[i - 1] == frames[i]);
            }
        }
        assert forall|i: int| m + 1 <= i < frames.len() implies (#[trigger] frames[i]).at
            >= cutoff by {
            assert(rest[i - 1] == frames[i]);
        }
        m + 1
    } else {
        assert(frames.skip(0) =~= frames);
        0
    }
}

/// The buffer never holds more than its window. Where frames come in the order
/// of their times, a push keeps that order, keeps the new frame as the last,
/// keeps exactly the frames no older than the window, the edge included, and so
/// leaves no more than the window between the oldest and the newest.
pub proof fn law_push_keeps_window(frames: Seq<Shot>, window: nat, frame: Shot)
    requires
        in_order(frames),
        frames.len() > 0 ==> frames.last().at <= frame.at,
    ensures
        ({
            let after = kept(frames, window, frame);
            &&& in_order(after)
            &&& after.len() > 0
            &&& after.last() == frame
            &&& after[0].at + window >= frame.at
            &&& forall|i: int|
                0 <= i < frames.len() ==> (after.contains(#[trigger] frames[i]) || frames[i].at
                    + window < frame.at)
        }),
{
    let whole = frames.push(frame);
    assert(in_order(whole)) by {
        assert forall|i: int, j: int| 0 <= i <= j < whole.len() implies whole[i].at
            <= whole[j].at by {
            if j == frames.len() && i < j {
                assert(whole[i] == frames[i]);
                assert(frames[i].at <= frames.last().at);
            }
        }
    }
    let edge = cutoff(frame.at, window);
    let n = lemma_since(whole, edge);
    let after = whole.skip(n);
    if n == whole.len() {
        assert(whole[whole.len() - 1].at < edge);
    }
    assert(after[0] == whole[n]);
    assert forall|i: int| 0 <= i < frames.len() implies (after.contains(#[trigger] frames[i])
        || frames[i].at + window < frame.at) by {
        assert(whole[i] == frames[i]);
        if i >= n {
            assert(after[i - n] == frames[i]);
        }
    }
}

/// Changing the window keeps exactly the frames no older than it, the edge
/// included, where frames come in the order of their times; and they are the
/// last ones, in their order.
pub proof fn law_resize_keeps_recent(frames: Seq<Shot>, window: nat)
    requires
        in_order(frames),
    ensures
        exists|n: int| 0 <= n <= frames.len() && recent(frames, window) == frames.skip(n),
        forall|i: int|
            0 <= i < frames.len() ==> (recent(frames, window).contains(#[trigger] frames[i])
                || frames[i].at + window < frames.last().at),
        forall|i: int|
            0 <= i < recent(frames, window).len() ==> (#[trigger] recent(frames, window)[i]).at
                + window >= frames.last().at,
{
    if frames.len() > 0 {
        let edge = cutoff(frames.last().at, window);
        let n = lemma_since(frames, edge);
        let after = frames.skip(n);
        assert forall|i: int| 0 <= i < frames.len() implies (after.contains(#[trigger] frames[i])
            || frames[i].at + window < frames.last().at) by {
            if i >= n {
                assert(after[i - n] == frames[i]);
            }
        }
        assert forall|i: int| 0 <= i < after.len() implies (#[trigger] after[i]).at + window
            >= frames.last().at by {
            assert(after[i] == frames[n + i]);
        }
    } else {
        assert(recent(frames, window) =~= frames.skip(0));
    }
}

} // verus!
