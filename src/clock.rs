use vstd::prelude::*;

verus! {

/// Nanoseconds in one second.
pub const NANOS_PER_SEC: u64 = 1_000_000_000;

/// How long an epoch lasts before the stored priorities are rescaled: one hour.
pub const RESCALE_INTERVAL_NANOS: u64 = 3_600_000_000_000;

/// The instant at which an epoch that starts at `start` is due for a rescale.
pub open spec fn rescale_due(start: u64) -> u64 {
    if start + RESCALE_INTERVAL_NANOS > u64::MAX {
        u64::MAX
    } else {
        (start + RESCALE_INTERVAL_NANOS) as u64
    }
}

/// Whole seconds from `from` to `to` (`from <= to`).
pub open spec fn seconds_between(from: u64, to: u64) -> u64 {
    ((to - from) / (NANOS_PER_SEC as int)) as u64
}

/// What the clock decided for one update.
#[derive(Clone, Copy, Debug, PartialEq, Eq)]
pub struct Tick {
    /// The instant the update is taken at, in nanoseconds.
    pub now: u64,
    /// When this update closes an epoch: the whole seconds that epoch lasted,
    /// by which every stored priority is to be decayed before the update goes in.
    pub rescale_secs: Option<u64>,
    /// Whole seconds from the start of the current epoch to `now`: the
    /// exponent of the update's decay weight.
    pub elapsed_secs: u64,
}

/// The time bookkeeping of a decaying reservoir, in nanoseconds on a
/// monotonic scale.
///
/// Timestamps that run backwards are clamped: an update stamped earlier than
/// the latest one seen is taken at the latest instant seen.
pub struct Clock {
    start: u64,
    next_rescale: u64,
    latest: u64,
}

impl Clock {
    /// Start of the current epoch, against which decay weights are computed.
    pub closed spec fn start(&self) -> u64 {
        self.start
    }

    /// The instant from which the next update triggers a rescale.
    pub closed spec fn next_rescale(&self) -> u64 {
        self.next_rescale
    }

    /// The latest instant an update was taken at (the start, before any).
    pub closed spec fn latest(&self) -> u64 {
        self.latest
    }

    /// The epoch starts no later than the latest update, and its rescale
    /// deadline is one interval after its start.
    pub closed spec fn wf(&self) -> bool {
        &&& self.start <= self.latest
        &&& self.next_rescale == rescale_due(self.start)
    }

    /// A clock whose first epoch starts at `start`.
    pub fn new(start: u64) -> (c: Clock)
        ensures
            c.wf(),
            c.start() == start,
            c.latest() == start,
            c.next_rescale() == rescale_due(start),
    {
        Clock { start, next_rescale: start.saturating_add(RESCALE_INTERVAL_NANOS), latest: start }
    }

    /// Start of the current epoch.
    pub fn start_time(&self) -> (r: u64)
        ensures
            r == self.start(),
    {
        self.start
    }

    /// Places an update stamped `time` on the clock. The update is taken at
    /// the later of `time` and the latest instant seen; when that instant has
    /// reached the rescale deadline, a new epoch starts there.
    pub fn advance(&mut self, time: u64) -> (t: Tick)
        requires
            old(self).wf(),
        ensures
            final(self).wf(),
            t.now == if time < old(self).latest() { old(self).latest() } else { time },
            final(self).latest() == t.now,
            final(self).next_rescale() == rescale_due(final(self).start()),
            t.now >= old(self).next_rescale() ==> {
                &&& t.rescale_secs == Some(seconds_between(old(self).start(), t.now))
                &&& final(self).start() == t.now
            },
            t.now < old(self).next_rescale() ==> {
                &&& t.rescale_secs.is_none()
                &&& final(self).start() == old(self).start()
            },
            t.elapsed_secs == seconds_between(final(self).start(), t.now),
    {
        let now = if time < self.latest { self.latest } else { time };
        let rescale_secs = if now >= self.next_rescale {
            let secs = (now - self.start) / NANOS_PER_SEC;
            self.start = now;
            self.next_rescale = now.saturating_add(RESCALE_INTERVAL_NANOS);
            Some(secs)
        } else {
            None
        };
        self.latest = now;
        Tick { now, rescale_secs, elapsed_secs: (now - self.start) / NANOS_PER_SEC }
    }
}

} // verus!
