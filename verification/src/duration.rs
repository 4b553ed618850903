use vstd::prelude::*;

verus! {

pub const NANOS_PER_MILLISECOND: i64 = 1_000_000;
pub const NANOS_PER_SECOND: i64 = 1_000_000_000;
pub const NANOS_PER_WEEK: i64 = 604_800_000_000_000;

/// A signed span of elapsed time, counted in whole nanoseconds.
///
/// The nanosecond count is the view of the type: every contract over a
/// `Duration` speaks of that single integer.
#[derive(Clone, Copy, PartialEq, Eq, Structural, Debug)]
pub struct Duration {
    pub nanos: i64,
}

impl View for Duration {
    type V = int;

    open spec fn view(&self) -> int {
        self.nanos as int
    }
}

/// The duration whose nanosecond count is `n`; meaningful only when `n`
/// fits in the representable range.
pub open spec fn dur(n: int) -> Duration {
    Duration { nanos: n as i64 }
}

impl Duration {
    pub fn nanoseconds(nanos: i64) -> (r: Duration)
        ensures
            r@ == nanos,
    {
        Duration { nanos }
    }

    pub fn milliseconds(ms: i64) -> (r: Duration)
        requires
            i64::MIN <= ms * NANOS_PER_MILLISECOND <= i64::MAX,
        ensures
            r@ == ms * NANOS_PER_MILLISECOND,
    {
        Duration { nanos: ms * NANOS_PER_MILLISECOND }
    }

    pub fn seconds(s: i64) -> (r: Duration)
        requires
            i64::MIN <= s * NANOS_PER_SECOND <= i64::MAX,
        ensures
            r@ == s * NANOS_PER_SECOND,
    {
        Duration { nanos: s * NANOS_PER_SECOND }
    }

    pub fn weeks(w: i64) -> (r: Duration)
        requires
            i64::MIN <= w * NANOS_PER_WEEK <= i64::MAX,
        ensures
            r@ == w * NANOS_PER_WEEK,
    {
        Duration { nanos: w * NANOS_PER_WEEK }
    }

    pub fn num_nanoseconds(&self) -> (r: i64)
        ensures
            r == self@,
    {
        self.nanos
    }
}

} // verus!
