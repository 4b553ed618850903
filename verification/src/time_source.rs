use vstd::prelude::*;

use crate::duration::Duration;

verus! {

/// A reading of elapsed time since a fixed origin.
///
/// `spec_now` is the modelled reading. An implementation for which
/// `obeys_time_spec()` holds (a virtual clock) promises that `now` returns
/// exactly `spec_now`; a real clock cannot promise that, and for it only
/// the non-negativity of the reading is known.
pub trait TimeSource: Sized {
    spec fn spec_now(&self) -> int;

    spec fn obeys_time_spec() -> bool;

    fn now(&self) -> (d: Duration)
        ensures
            0 <= d@,
            Self::obeys_time_spec() ==> d@ == self.spec_now(),
    ;
}

/// A time source that can block the caller for a span of time.
pub trait Wait: TimeSource {
    fn wait(&mut self, duration: Duration)
        requires
            0 <= duration@,
            Self::obeys_time_spec() ==> old(self).spec_now() + duration@ <= i64::MAX,
        ensures
            Self::obeys_time_spec() ==> final(self).spec_now() == old(self).spec_now() + duration@,
    ;
}

/// A time source whose reading can be advanced directly, as a virtual
/// clock can be.
pub trait FastForward: TimeSource {
    fn fast_forward(&mut self, duration: Duration)
        requires
            0 <= duration@,
            Self::obeys_time_spec() ==> old(self).spec_now() + duration@ <= i64::MAX,
        ensures
            Self::obeys_time_spec() ==> final(self).spec_now() == old(self).spec_now() + duration@,
    ;
}

/// A controllable virtual clock: it reports exactly the time it was told
/// has passed. Waiting on it advances it, which makes it the test double
/// for the blocking wait loop.
pub struct VirtualTimeSource {
    now_nanos: i64,
}

impl VirtualTimeSource {
    #[verifier::type_invariant]
    spec fn type_inv(self) -> bool {
        0 <= self.now_nanos
    }

    pub fn new() -> (s: VirtualTimeSource)
        ensures
            s.spec_now() == 0,
    {
        VirtualTimeSource { now_nanos: 0 }
    }
}

impl TimeSource for VirtualTimeSource {
    closed spec fn spec_now(&self) -> int {
        self.now_nanos as int
    }

    open spec fn obeys_time_spec() -> bool {
        true
    }

    fn now(&self) -> (d: Duration) {
        proof {
            use_type_invariant(self);
        }
        Duration::nanoseconds(self.now_nanos)
    }
}

impl Wait for VirtualTimeSource {
    fn wait(&mut self, duration: Duration) {
        proof {
            use_type_invariant(&*self);
        }
        self.now_nanos = self.now_nanos + duration.num_nanoseconds();
    }
}

impl FastForward for VirtualTimeSource {
    fn fast_forward(&mut self, duration: Duration) {
        proof {
            use_type_invariant(&*self);
        }
        self.now_nanos = self.now_nanos + duration.num_nanoseconds();
    }
}

#[verifier::external_type_specification]
#[verifier::external_body]
pub struct ExSteadyTime(time::SteadyTime);

/// Relies on time::SteadyTime::now: it reads the host's steady clock and
/// returns an opaque instant.
#[verifier::external_body]
fn steady_now() -> time::SteadyTime {
    time::SteadyTime::now()
}

/// Relies on time::SteadyTime::now, the subtraction of two SteadyTime
/// values, and time::Duration::num_nanoseconds: the steady clock never
/// decreases, so the span since an earlier reading of it is non-negative,
/// and num_nanoseconds returns its whole nanosecond count. The call panics
/// if that count no longer fits in 64 bits, which bounds the usable
/// horizon at roughly 292 years.
#[verifier::external_body]
fn steady_elapsed_nanos(origin: &time::SteadyTime) -> (r: i64)
    ensures
        0 <= r,
{
    let elapsed: time::Duration = time::SteadyTime::now() - *origin;
    elapsed.num_nanoseconds().expect("elapsed time too large")
}

/// The production time source: elapsed time measured by the host's steady
/// (monotonic) clock, counted from the moment this source was created.
///
/// It cannot block: a sleeping time source has to come from the embedding
/// program, since a verified library cannot sleep.
pub struct SteadyTimeSource {
    origin: time::SteadyTime,
}

impl SteadyTimeSource {
    pub(crate) fn new() -> SteadyTimeSource {
        SteadyTimeSource { origin: steady_now() }
    }
}

impl TimeSource for SteadyTimeSource {
    closed spec fn spec_now(&self) -> int {
        0
    }

    open spec fn obeys_time_spec() -> bool {
        false
    }

    fn now(&self) -> (d: Duration) {
        Duration::nanoseconds(steady_elapsed_nanos(&self.origin))
    }
}

impl Wait for SteadyTimeSource {
    /// A verified library cannot put a thread to sleep, so this wait
    /// polls the steady clock until the requested span has passed. An
    /// embedding program that prefers a true sleep drives the
    /// scheduler's poll with its own sleeping loop instead.
    fn wait(&mut self, duration: Duration) {
        let start = self.now().num_nanoseconds();
        let d = duration.num_nanoseconds();
        let deadline = if start <= i64::MAX - d {
            start + d
        } else {
            i64::MAX
        };
        let mut spins: u64 = u64::MAX;
        while spins > 0 && self.now().num_nanoseconds() < deadline
            decreases spins,
        {
            spins = spins - 1;
        }
    }
}

} // verus!
