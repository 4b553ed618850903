use vstd::prelude::*;

use crate::duration::{dur, Duration};

verus! {

/// Whether a task fires once or re-arms itself after every firing.
#[derive(Clone, Copy, PartialEq, Eq, Structural, Debug)]
pub enum TaskBond {
    OneOff,
    Perpetual,
}

/// One scheduled unit: how often it fires, the elapsed-time offset at which
/// it was last (re)armed, the caller's token, and whether it repeats.
#[derive(Clone, Copy, Debug)]
pub struct Task<Token> {
    pub interval: Duration,
    pub run_offset: Duration,
    pub token: Token,
    pub bond: TaskBond,
}

impl<Token: Copy> Task<Token> {
    /// The elapsed time at which the scheduled unit falls due.
    pub open spec fn spec_schedule(self) -> int {
        self.run_offset@ + self.interval@
    }

    /// A task the scheduler can hold: non-negative interval and arm offset,
    /// and a due time that stays in the representable range.
    pub open spec fn wf(self) -> bool {
        &&& 0 <= self.interval@
        &&& 0 <= self.run_offset@
        &&& self.spec_schedule() <= i64::MAX
    }

    /// A negative interval would move the schedule backward in time, so it
    /// is ruled out at construction.
    pub fn new(interval: Duration, run_offset: Duration, bond: TaskBond, token: Token) -> (t: Task<
        Token,
    >)
        requires
            0 <= interval@,
        ensures
            t == (Task { interval, run_offset, token, bond }),
    {
        Task { interval, run_offset, bond, token }
    }

    /// The task re-armed for its following period: the new arm offset is the
    /// old due time, so a repeating task advances by exactly one interval
    /// per firing.
    pub fn next(self) -> (t: Task<Token>)
        requires
            i64::MIN <= self.spec_schedule() <= i64::MAX,
        ensures
            t == (Task { run_offset: dur(self.spec_schedule()), ..self }),
    {
        Task { run_offset: Duration { nanos: self.run_offset.nanos + self.interval.nanos }, ..self }
    }

    /// The due time, as a duration since the clock's origin.
    pub fn schedule(&self) -> (d: Duration)
        requires
            i64::MIN <= self.spec_schedule() <= i64::MAX,
        ensures
            d@ == self.spec_schedule(),
    {
        Duration { nanos: self.run_offset.nanos + self.interval.nanos }
    }
}

} // verus!
