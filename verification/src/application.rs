//! The state an application carries from frame to frame: its storage and
//! the frame timer.  Clock readings are kept as nanoseconds since the start
//! of the application.
use std::hash::Hash;
use std::time::{Duration, Instant};
use vstd::prelude::*;

use crate::engine::storage::GameStorage;

verus! {

#[verifier::external_type_specification]
#[verifier::external_body]
pub struct ExInstant(Instant);

/// `Instant::now`: a reading of the monotonic clock; nothing is stated of it.
#[verifier::external_body]
fn instant_now() -> Instant {
    Instant::now()
}

/// `Instant::elapsed`: the time from `start` to a reading of the clock taken
/// now; nothing is stated of it, since it comes from the clock.
#[verifier::external_body]
fn elapsed_since(start: &Instant) -> Duration {
    start.elapsed()
}

/// `Duration::as_nanos`: the whole nanoseconds of a duration; nothing is
/// stated of it, since the duration is not seen here.
#[verifier::external_body]
fn whole_nanos(d: &Duration) -> u128 {
    d.as_nanos()
}

/// The whole microseconds from the reading `earlier` to the reading `later`
/// (both in nanoseconds since the start), or `0` when `later` is not after
/// `earlier`, as the subtraction of two instants gives.
pub open spec fn micros_between(earlier: u128, later: u128) -> u128 {
    if later >= earlier {
        ((later - earlier) / 1000) as u128
    } else {
        0
    }
}

/// The frame time recorded for a frame that took `micros` microseconds:
/// the count truncated to 32 bits.
pub open spec fn frame_time_of(micros: u128) -> u32 {
    micros as u32
}

/// The longest frame time seen, given the previous longest and a new one.
pub open spec fn longest(max_frame_time: u32, frame_time: u32) -> u32 {
    if frame_time > max_frame_time {
        frame_time
    } else {
        max_frame_time
    }
}

/// The timer part of an application state: frames counted, last frame time,
/// longest frame time, and the reading at the end of the last frame.
pub type Timer = (nat, u32, u32, u128);

/// The timer after one more frame, ending at the reading `now`.
pub open spec fn timer_step(t: Timer, now: u128) -> Timer {
    let ft = frame_time_of(micros_between(t.3, now));
    (t.0 + 1, ft, longest(t.2, ft), now)
}

/// The timer after frames ending at each of `readings`, in order.
pub open spec fn timer_run(t: Timer, readings: Seq<u128>) -> Timer
    decreases readings.len(),
{
    if readings.len() == 0 {
        t
    } else {
        timer_step(timer_run(t, readings.drop_last()), readings.last())
    }
}

/// Over any run of counted frames, whatever the clock reads: one more frame
/// counted per call, the last frame time never above the longest, and the
/// longest never shrinking from one frame to the next.
pub proof fn lemma_timer_run(t: Timer, readings: Seq<u128>)
    requires
        t.1 <= t.2,
    ensures
        timer_run(t, readings).0 == t.0 + readings.len(),
        timer_run(t, readings).1 <= timer_run(t, readings).2,
        forall|j: int, k: int|
            0 <= j <= k <= readings.len() ==> #[trigger] timer_run(t, readings.take(j)).2
                <= #[trigger] timer_run(t, readings.take(k)).2,
    decreases readings.len(),
{
    if readings.len() > 0 {
        let init = readings.drop_last();
        lemma_timer_run(t, init);
        assert(readings.take(readings.len() as int) =~= readings);
        assert forall|j: int, k: int| 0 <= j <= k <= readings.len() implies #[trigger] timer_run(
            t,
            readings.take(j),
        ).2 <= #[trigger] timer_run(t, readings.take(k)).2 by {
            if k == readings.len() {
                if j < k {
                    assert(init.take(j) =~= readings.take(j));
                    assert(init.take(init.len() as int) =~= init);
                    assert(timer_run(t, init.take(j)).2 <= timer_run(
                        t,
                        init.take(init.len() as int),
                    ).2);
                }
            } else {
                assert(init.take(j) =~= readings.take(j));
                assert(init.take(k) =~= readings.take(k));
                assert(timer_run(t, init.take(j)).2 <= timer_run(t, init.take(k)).2);
            }
        }
    }
}

/// Storage and frame timing of a running application.
pub struct AppState<K, V> {
    pub game_storage: GameStorage<K, V>,
    pub start: Instant,
    /// The clock reading at the end of the last frame, in nanoseconds since
    /// `start`.
    pub last_frame_ns: u128,
    /// Microseconds the last frame took.
    pub frame_time: u32,
    /// The longest frame time so far.
    pub max_frame_time: u32,
    /// Frames counted so far.
    pub frame_count: u64,
}

impl<K, V> AppState<K, V> {
    /// The timer part of the state.
    pub open spec fn timer(&self) -> Timer {
        (self.frame_count as nat, self.frame_time, self.max_frame_time, self.last_frame_ns)
    }
}

impl<K: Eq + Hash, V> AppState<K, V> {
    /// Empty storage, the clock started now and read once more for the end
    /// of the "previous frame", no frames counted.
    pub fn new() -> (s: Self)
        ensures
            s.game_storage@ == Map::<K, Seq<V>>::empty(),
            s.frame_time == 0,
            s.max_frame_time == 0,
            s.frame_count == 0,
    {
        let start = instant_now();
        let last_frame_ns = whole_nanos(&elapsed_since(&start));
        AppState {
            game_storage: GameStorage::new(),
            start,
            last_frame_ns,
            frame_time: 0,
            max_frame_time: 0,
            frame_count: 0,
        }
    }

    /// Records a frame that ended at the reading `now_ns` (nanoseconds since
    /// the start): the whole microseconds since the previous reading become
    /// the frame time, and the longest frame time is kept up to date.
    pub fn record_frame(&mut self, now_ns: u128)
        requires
            old(self).frame_count < u64::MAX,
        ensures
            final(self).timer() == timer_step(old(self).timer(), now_ns),
            final(self).start == old(self).start,
            final(self).game_storage == old(self).game_storage,
    {
        self.frame_count = self.frame_count + 1;
        let elapsed_ns: u128 = if now_ns >= self.last_frame_ns {
            now_ns - self.last_frame_ns
        } else {
            0
        };
        self.frame_time = (elapsed_ns / 1000) as u32;
        self.last_frame_ns = now_ns;
        if self.frame_time > self.max_frame_time {
            self.max_frame_time = self.frame_time;
        }
    }

    /// Counts a frame ending now: reads the clock and records the frame as
    /// ending at that reading.  The monotonic clock never reads earlier than
    /// a previous reading; should it ever do so, the previous reading is kept,
    /// which gives the same zero frame time.
    pub fn count(&mut self)
        requires
            old(self).frame_count < u64::MAX,
        ensures
            final(self).timer() == timer_step(old(self).timer(), final(self).last_frame_ns),
            final(self).last_frame_ns >= old(self).last_frame_ns,
            final(self).frame_count == old(self).frame_count + 1,
            final(self).frame_time == frame_time_of(
                micros_between(old(self).last_frame_ns, final(self).last_frame_ns),
            ),
            final(self).max_frame_time == longest(old(self).max_frame_time, final(self).frame_time),
            final(self).start == old(self).start,
            final(self).game_storage == old(self).game_storage,
    {
        let reading = whole_nanos(&elapsed_since(&self.start));
        let now_ns: u128 = if reading >= self.last_frame_ns {
            reading
        } else {
            self.last_frame_ns
        };
        self.record_frame(now_ns);
    }
}

} // verus!
