//! A quantized task scheduler.
//!
//! Callers register one-off (`after`) or repeating (`every`) tasks carrying
//! an opaque token. Elapsed time is discretized into fixed-width buckets;
//! the scheduler keeps pending tasks ordered by bucket and, when polled,
//! reports what is due now, what was missed, and how long until the next
//! firing. It never runs tasks itself: it only decides timing and hands
//! tokens back.

pub mod duration;
pub mod task;
pub mod laws;
pub mod scheduler;
pub mod time_source;

pub use duration::Duration;
pub use scheduler::{Schedule, Scheduler, TimePoint, WaitError};
pub use task::{Task, TaskBond};
pub use time_source::{FastForward, SteadyTimeSource, TimeSource, VirtualTimeSource, Wait};
