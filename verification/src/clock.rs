//! The clock of the event stream. Events report timestamps that may repeat
//! or run backwards; the clock turns them into timestamps that never
//! decrease, and moves on by a millisecond after a hundred events that did
//! not move it.

use vstd::prelude::*;

verus! {

/// The number of events after which a clock that stood still is moved on.
pub const RUN_LENGTH: u16 = 100;

/// The most recent effective timestamp and the number of events since it was set.
#[derive(Clone, Copy, Debug, PartialEq, Eq, Structural)]
pub struct Clock {
    /// The effective timestamp of the most recent event, in milliseconds.
    pub most_recent_timestamp: u64,
    /// The number of events since `most_recent_timestamp` last changed.
    pub event_count: u16,
}

impl Clock {
    /// Fewer events are counted than move the clock on.
    pub open spec fn wf(&self) -> bool {
        self.event_count < RUN_LENGTH
    }

    /// The event that reports `reported` would have to move the clock past
    /// the last instant that a timestamp can hold.
    pub open spec fn exhausted(&self, reported: u64) -> bool {
        &&& reported <= self.most_recent_timestamp
        &&& self.event_count + 1 == RUN_LENGTH
        &&& self.most_recent_timestamp == u64::MAX
    }

    /// The clock after an event that reports `reported`. A later timestamp
    /// is taken over. Any other is counted, and the hundredth such event in
    /// a row moves the clock on by one millisecond.
    pub open spec fn step(&self, reported: u64) -> Clock {
        if reported > self.most_recent_timestamp {
            Clock { most_recent_timestamp: reported, event_count: 0 }
        } else if self.event_count + 1 == RUN_LENGTH {
            Clock {
                most_recent_timestamp: (self.most_recent_timestamp + 1) as u64,
                event_count: 0,
            }
        } else {
            Clock {
                most_recent_timestamp: self.most_recent_timestamp,
                event_count: (self.event_count + 1) as u16,
            }
        }
    }

    /// The effective timestamp of an event that reports `reported`.
    pub open spec fn effective(&self, reported: u64) -> u64 {
        self.step(reported).most_recent_timestamp
    }

    /// A clock at 0 that has seen no event.
    pub fn new() -> (c: Self)
        ensures
            c == (Clock { most_recent_timestamp: 0, event_count: 0 }),
            c.wf(),
    {
        Clock { most_recent_timestamp: 0, event_count: 0 }
    }

    /// Whether the event that reports `reported` would exhaust the clock.
    pub fn is_exhausted(&self, reported: u64) -> (r: bool)
        ensures
            r == self.exhausted(reported),
    {
        reported <= self.most_recent_timestamp && self.event_count == RUN_LENGTH - 1
            && self.most_recent_timestamp == u64::MAX
    }

    /// Takes in an event that reports `reported` and returns its effective timestamp.
    pub fn advance(&mut self, reported: u64) -> (now: u64)
        requires
            old(self).wf(),
            !old(self).exhausted(reported),
        ensures
            *final(self) == old(self).step(reported),
            now == old(self).effective(reported),
            final(self).wf(),
            now >= old(self).most_recent_timestamp,
            now >= reported,
    {
        if reported > self.most_recent_timestamp {
            self.most_recent_timestamp = reported;
            self.event_count = 0;
        } else {
            self.event_count = self.event_count + 1;
            if self.event_count == RUN_LENGTH {
                self.most_recent_timestamp = self.most_recent_timestamp + 1;
                self.event_count = 0;
            }
        }
        self.most_recent_timestamp
    }

    /// The effective timestamp that `advance` would return for `reported`.
    pub fn peek(&self, reported: u64) -> (now: u64)
        requires
            self.wf(),
            !self.exhausted(reported),
        ensures
            now == self.effective(reported),
    {
        if reported > self.most_recent_timestamp {
            reported
        } else if self.event_count + 1 == RUN_LENGTH {
            self.most_recent_timestamp + 1
        } else {
            self.most_recent_timestamp
        }
    }
}

/// The time between two ticks, in milliseconds.
pub const TICK_INTERVAL_MS: u64 = 1_000;

/// Whether a tick is due at `now`, the last one having been at `last_tick`:
/// that is, whether a second has passed since.
pub fn tick_due(now: u64, last_tick: u64) -> (due: bool)
    ensures
        due == (now >= last_tick + TICK_INTERVAL_MS),
{
    now >= TICK_INTERVAL_MS && now - TICK_INTERVAL_MS >= last_tick
}

/// The clock after the events that report `reported`, in order.
pub open spec fn run(clock: Clock, reported: Seq<u64>) -> Clock
    decreases reported.len(),
{
    if reported.len() == 0 {
        clock
    } else {
        run(clock, reported.drop_last()).step(reported.last())
    }
}

/// None of the events that report `reported`, in order, exhausts the clock.
pub open spec fn runs(clock: Clock, reported: Seq<u64>) -> bool
    decreases reported.len(),
{
    if reported.len() == 0 {
        true
    } else {
        &&& runs(clock, reported.drop_last())
        &&& !run(clock, reported.drop_last()).exhausted(reported.last())
    }
}

/// The effective timestamp of an event is neither earlier than that of the
/// event before it nor earlier than the timestamp that the event reports.
pub proof fn lemma_step_never_goes_back(clock: Clock, reported: u64)
    requires
        clock.wf(),
        !clock.exhausted(reported),
    ensures
        clock.step(reported).wf(),
        clock.step(reported).most_recent_timestamp >= clock.most_recent_timestamp,
        clock.step(reported).most_recent_timestamp >= reported,
        clock.step(reported).most_recent_timestamp * 100 + clock.step(reported).event_count
            > clock.most_recent_timestamp * 100 + clock.event_count,
{
}

/// Over any sequence of events the effective timestamps never decrease:
/// each prefix of the events leaves the clock no later than the whole.
pub proof fn lemma_effective_timestamps_never_decrease(clock: Clock, reported: Seq<u64>, n: int)
    requires
        clock.wf(),
        runs(clock, reported),
        0 <= n <= reported.len(),
    ensures
        run(clock, reported).wf(),
        runs(clock, reported.take(n)),
        run(clock, reported.take(n)).most_recent_timestamp <= run(
            clock,
            reported,
        ).most_recent_timestamp,
        clock.most_recent_timestamp <= run(clock, reported).most_recent_timestamp,
        run(clock, reported).most_recent_timestamp * 100 + run(clock, reported).event_count
            >= clock.most_recent_timestamp * 100 + clock.event_count + reported.len(),
    decreases reported.len(),
{
    if reported.len() == 0 {
        assert(reported.take(n) =~= reported);
    } else {
        let front = reported.drop_last();
        if n == reported.len() {
            assert(reported.take(n) =~= reported);
            lemma_effective_timestamps_never_decrease(clock, front, n - 1);
        } else {
            assert(reported.take(n) =~= front.take(n));
            lemma_effective_timestamps_never_decrease(clock, front, n);
        }
        lemma_step_never_goes_back(run(clock, front), reported.last());
    }
}

/// A hundred events or more move the clock on by at least one millisecond,
/// whatever timestamps they report: also where none of them is later than
/// the one before.
pub proof fn lemma_hundred_events_move_the_clock(clock: Clock, reported: Seq<u64>)
    requires
        clock.wf(),
        runs(clock, reported),
        reported.len() >= RUN_LENGTH,
    ensures
        run(clock, reported).most_recent_timestamp >= clock.most_recent_timestamp + 1,
{
    lemma_effective_timestamps_never_decrease(clock, reported, 0);
}

} // verus!
