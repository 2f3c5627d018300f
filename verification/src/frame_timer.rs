//! Frame counting and frames-per-second reporting once per second.
use std::time::Instant;
use vstd::prelude::*;

verus! {

#[verifier::external_type_specification]
#[verifier::external_body]
pub struct ExInstant(Instant);

/// `Instant` is `Copy`: its `clone` returns the same instant.
pub assume_specification[ <Instant as Clone>::clone ](i: &Instant) -> (r: Instant)
    ensures
        r == *i,
;

/// Reads the clock with `Instant::now`; nothing is claimed of the reading.
#[verifier::external_body]
fn instant_now() -> Instant {
    Instant::now()
}

/// Nanoseconds from `earlier` to `now` as `Instant::duration_since`
/// measures them (zero when `earlier` is the later one), as a `u128`.
pub uninterp spec fn nanos_between(now: Instant, earlier: Instant) -> u128;

/// Nanoseconds from `earlier` to `now`, from `Instant::duration_since`
/// (which saturates at zero) taken as a `u128` count of nanoseconds. The
/// contract claims only that the count is a function of the two instants,
/// named `nanos_between`.
#[verifier::external_body]
fn nanos_since(now: &Instant, earlier: &Instant) -> (r: u128)
    ensures
        r == nanos_between(*now, *earlier),
{
    now.duration_since(*earlier).as_nanos()
}

/// One second in nanoseconds.
pub const NANOS_PER_SECOND: u128 = 1_000_000_000;

/// The most recent `Some` among `results`, or 0 when there is none.
pub open spec fn last_published(results: Seq<Option<u32>>) -> u32
    decreases results.len(),
{
    if results.len() == 0 {
        0
    } else {
        match results.last() {
            Some(f) => f,
            None => last_published(results.drop_last()),
        }
    }
}

/// Tracks frame count and computes Frames Per Second (FPS) once per second.
#[derive(Debug, Clone)]
pub struct FrameTimer {
    last_second: Instant,
    frames_since_last_second: u32,
    fps: u32,
}

impl FrameTimer {
    /// Frames counted since the last FPS update.
    pub closed spec fn pending_frames(&self) -> u32 {
        self.frames_since_last_second
    }

    /// The last computed FPS value.
    pub closed spec fn fps_value(&self) -> u32 {
        self.fps
    }

    /// The instant the current one-second window started.
    pub closed spec fn window_start(&self) -> Instant {
        self.last_second
    }

    /// `after` is `before` after one counted frame that returned `r`: a
    /// `Some` publishes the count (this frame included) as the FPS value and
    /// restarts the count; a `None` adds the frame to the count and keeps the
    /// FPS value and the window.
    pub open spec fn frame_step(before: FrameTimer, after: FrameTimer, r: Option<u32>) -> bool {
        &&& r matches Some(f) ==> f == before.pending_frames() + 1 && after.fps_value() == f
            && after.pending_frames() == 0
        &&& r is None ==> after.pending_frames() == before.pending_frames() + 1 && after.fps_value()
            == before.fps_value() && after.window_start() == before.window_start()
    }

    /// Create a new frame timer starting now.
    pub fn new() -> (r: Self)
        ensures
            r.pending_frames() == 0,
            r.fps_value() == 0,
    {
        Self { last_second: instant_now(), frames_since_last_second: 0, fps: 0 }
    }

    /// Notify the timer that one frame has completed. Returns `Some(fps)`
    /// when one second has elapsed and the FPS value has updated, otherwise `None`.
    pub fn frame(&mut self) -> (r: Option<u32>)
        requires
            old(self).pending_frames() < u32::MAX,
        ensures
            FrameTimer::frame_step(*old(self), *final(self), r),
            exists|now: Instant|
                (r.is_some() == (nanos_between(now, old(self).window_start()) >= NANOS_PER_SECOND))
                    && (r is Some ==> final(self).window_start() == now),
            r matches Some(f) ==> f == old(self).pending_frames() + 1 && final(self).fps_value() == f
                && final(self).pending_frames() == 0,
            r is None ==> final(self).pending_frames() == old(self).pending_frames() + 1
                && final(self).fps_value() == old(self).fps_value() && final(self).window_start()
                == old(self).window_start(),
    {
        let now = instant_now();
        let elapsed = nanos_since(&now, &self.last_second);
        let r = self.frame_at(now, elapsed);
        assert(r.is_some() == (nanos_between(now, old(self).window_start()) >= NANOS_PER_SECOND));
        assert(r is Some ==> self.window_start() == now);
        r
    }

    /// Count one frame completed at `now`, `elapsed_nanos` after the start of
    /// the current window: when a full second has elapsed the count becomes
    /// the FPS value, the window restarts at `now`, and the value is returned.
    pub fn frame_at(&mut self, now: Instant, elapsed_nanos: u128) -> (r: Option<u32>)
        requires
            old(self).pending_frames() < u32::MAX,
        ensures
            FrameTimer::frame_step(*old(self), *final(self), r),
            r.is_some() == (elapsed_nanos >= NANOS_PER_SECOND),
            r matches Some(f) ==> f == old(self).pending_frames() + 1 && final(self).fps_value() == f
                && final(self).pending_frames() == 0 && final(self).window_start() == now,
            r is None ==> final(self).pending_frames() == old(self).pending_frames() + 1
                && final(self).fps_value() == old(self).fps_value() && final(self).window_start()
                == old(self).window_start(),
    {
        self.frames_since_last_second = self.frames_since_last_second + 1;
        if elapsed_nanos >= NANOS_PER_SECOND {
            self.fps = self.frames_since_last_second;
            self.frames_since_last_second = 0;
            self.last_second = now;
            return Some(self.fps);
        }
        None
    }

    /// Frames counted so far in the current one-second window.
    pub fn frames_this_second(&self) -> (r: u32)
        ensures
            r == self.pending_frames(),
    {
        self.frames_since_last_second
    }

    /// Current FPS value (last computed). Will be 0 until at least one full second passes.
    pub fn fps(&self) -> (r: u32)
        ensures
            r == self.fps_value(),
    {
        self.fps
    }
}

/// Whatever the clock did, the FPS value of a new timer after a run of
/// frames is the value the most recent frame published, or 0 when none did.
pub proof fn lemma_fps_is_last_published(timers: Seq<FrameTimer>, results: Seq<Option<u32>>)
    requires
        timers.len() == results.len() + 1,
        timers[0].fps_value() == 0,
        forall|i: int|
            0 <= i < results.len() ==> #[trigger] FrameTimer::frame_step(timers[i], timers[i + 1], results[i]),
    ensures
        timers.last().fps_value() == last_published(results),
    decreases results.len(),
{
    if results.len() > 0 {
        let n = results.len() - 1;
        assert forall|i: int| 0 <= i < results.drop_last().len() implies #[trigger] FrameTimer::frame_step(
            timers.drop_last()[i],
            timers.drop_last()[i + 1],
            results.drop_last()[i],
        ) by {
            assert(FrameTimer::frame_step(timers[i], timers[i + 1], results[i]));
        }
        lemma_fps_is_last_published(timers.drop_last(), results.drop_last());
        assert(FrameTimer::frame_step(timers[n], timers[n + 1], results[n]));
    }
}

} // verus!
