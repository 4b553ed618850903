use scheduler::{
    Duration, Schedule, Scheduler, SteadyTimeSource, Task, TaskBond, VirtualTimeSource, WaitError,
};

fn ns_sum(a: Duration, b: Duration) -> Duration {
    Duration::nanoseconds(a.num_nanoseconds() + b.num_nanoseconds())
}

#[test]
fn task_next_schedule() {
    let now = Duration::seconds(0);
    let interval = Duration::seconds(1);
    let task = Task::new(interval, now, TaskBond::OneOff, 42);

    assert_eq!(task.schedule(), ns_sum(now, interval));
    assert_eq!(
        task.next().next().schedule(),
        Duration::nanoseconds(now.num_nanoseconds() + interval.num_nanoseconds() * 3)
    );
}

#[test]
fn scheduler_to_time_point() {
    let scheduler: Scheduler<(), SteadyTimeSource> = Scheduler::new(Duration::seconds(1));
    assert_eq!(scheduler.to_time_point(Duration::seconds(0)), 0);
    assert_eq!(scheduler.to_time_point(Duration::seconds(1)), 1);
    assert_eq!(scheduler.to_time_point(Duration::seconds(2)), 2);
    assert_eq!(scheduler.to_time_point(Duration::milliseconds(2000)), 2);
    assert_eq!(scheduler.to_time_point(Duration::milliseconds(100)), 0);
    assert_eq!(scheduler.to_time_point(Duration::milliseconds(1100)), 1);
    assert_eq!(scheduler.to_time_point(Duration::milliseconds(1500)), 1);
    assert_eq!(scheduler.to_time_point(Duration::milliseconds(1800)), 1);
    assert_eq!(scheduler.to_time_point(Duration::milliseconds(2800)), 2);
}

#[test]
fn scheduler_to_time_point_limits() {
    let scheduler: Scheduler<(), SteadyTimeSource> = Scheduler::new(Duration::nanoseconds(1));
    assert_eq!(scheduler.to_time_point(Duration::seconds(0)), 0);

    let half_weeks = Duration::nanoseconds(Duration::weeks(15250).num_nanoseconds() / 2);
    let scheduler: Scheduler<(), SteadyTimeSource> = Scheduler::new(half_weeks);
    assert_eq!(scheduler.to_time_point(Duration::weeks(0)), 0);
    assert_eq!(scheduler.to_time_point(half_weeks), 1);
    assert_eq!(scheduler.to_time_point(Duration::weeks(15250)), 2);
}

#[test]
fn scheduler_to_duration() {
    let scheduler: Scheduler<(), SteadyTimeSource> = Scheduler::new(Duration::seconds(1));
    assert_eq!(scheduler.to_duration(0), Duration::seconds(0));
    assert_eq!(scheduler.to_duration(1), Duration::seconds(1));
    assert_eq!(scheduler.to_duration(2), Duration::seconds(2));
}

#[test]
fn scheduler_to_duration_limits() {
    let scheduler: Scheduler<(), SteadyTimeSource> = Scheduler::new(Duration::nanoseconds(1));
    assert_eq!(scheduler.to_duration(0), Duration::nanoseconds(0));
    assert_eq!(scheduler.to_duration(1), Duration::nanoseconds(1));

    let half_weeks = Duration::nanoseconds(Duration::weeks(15250).num_nanoseconds() / 2);
    let scheduler: Scheduler<(), SteadyTimeSource> = Scheduler::new(half_weeks);
    assert_eq!(scheduler.to_duration(0), Duration::seconds(0));
    assert_eq!(scheduler.to_duration(1), half_weeks);
    assert_eq!(scheduler.to_duration(2), Duration::weeks(15250));
}

#[test]
fn scheduler_empty() {
    let mut scheduler: Scheduler<(), SteadyTimeSource> = Scheduler::new(Duration::seconds(1));
    assert_eq!(scheduler.next(), Option::None);
    assert_eq!(scheduler.next(), Option::None);
}

#[test]
fn scheduler_after() {
    let mut scheduler = Scheduler::with_time_source(Duration::seconds(1), VirtualTimeSource::new());

    scheduler.after(Duration::seconds(0), 0);
    assert_eq!(scheduler.next(), Option::Some(Schedule::Current(vec![0])));

    scheduler.after(Duration::seconds(1), 1);
    assert_eq!(scheduler.next(), Option::Some(Schedule::NextIn(Duration::seconds(1))));
    assert_eq!(scheduler.next(), Option::Some(Schedule::NextIn(Duration::seconds(1))));

    scheduler.fast_forward(Duration::milliseconds(100));
    assert_eq!(scheduler.next(), Option::Some(Schedule::NextIn(Duration::milliseconds(900))));
    scheduler.fast_forward(Duration::milliseconds(900));
    assert_eq!(scheduler.next(), Option::Some(Schedule::Current(vec![1])));
    assert_eq!(scheduler.next(), Option::None);
}

#[test]
fn scheduler_every() {
    let mut scheduler = Scheduler::with_time_source(Duration::seconds(1), VirtualTimeSource::new());

    scheduler.every(Duration::seconds(1), 1);
    assert_eq!(scheduler.next(), Option::Some(Schedule::NextIn(Duration::seconds(1))));
    assert_eq!(scheduler.next(), Option::Some(Schedule::NextIn(Duration::seconds(1))));

    scheduler.fast_forward(Duration::milliseconds(100));
    assert_eq!(scheduler.next(), Option::Some(Schedule::NextIn(Duration::milliseconds(900))));
    scheduler.fast_forward(Duration::milliseconds(900));
    assert_eq!(scheduler.next(), Option::Some(Schedule::Current(vec![1])));
    assert_eq!(scheduler.next(), Option::Some(Schedule::NextIn(Duration::seconds(1))));

    scheduler.fast_forward(Duration::milliseconds(600));
    assert_eq!(scheduler.next(), Option::Some(Schedule::NextIn(Duration::milliseconds(400))));
    scheduler.fast_forward(Duration::milliseconds(500));
    assert_eq!(scheduler.next(), Option::Some(Schedule::Current(vec![1])));
    assert_eq!(scheduler.next(), Option::Some(Schedule::NextIn(Duration::milliseconds(900))));
}

#[test]
fn scheduler_every_with_overrun() {
    let mut scheduler = Scheduler::with_time_source(Duration::seconds(1), VirtualTimeSource::new());

    scheduler.every(Duration::seconds(1), 1);
    scheduler.fast_forward(Duration::seconds(4));
    assert_eq!(scheduler.next(), Option::Some(Schedule::Overrun(vec![1, 1, 1])));
    assert_eq!(scheduler.next(), Option::Some(Schedule::Current(vec![1])));
}

#[test]
fn scheduler_limits() {
    let mut scheduler =
        Scheduler::with_time_source(Duration::nanoseconds(1), VirtualTimeSource::new());

    scheduler.after(Duration::nanoseconds(1), 1);
    assert_eq!(scheduler.next(), Option::Some(Schedule::NextIn(Duration::nanoseconds(1))));

    scheduler.fast_forward(Duration::nanoseconds(1));
    assert_eq!(scheduler.next(), Option::Some(Schedule::Current(vec![1])));

    scheduler.after(Duration::weeks(15250), 2);
    assert_eq!(scheduler.next(), Option::Some(Schedule::NextIn(Duration::weeks(15250))));

    scheduler.fast_forward(Duration::weeks(15250));
    assert_eq!(scheduler.next(), Option::Some(Schedule::Current(vec![2])));

    let half_weeks = Duration::nanoseconds(Duration::weeks(15250).num_nanoseconds() / 2);
    let mut scheduler = Scheduler::with_time_source(half_weeks, VirtualTimeSource::new());

    scheduler.after(half_weeks, 1);
    assert_eq!(scheduler.next(), Option::Some(Schedule::NextIn(half_weeks)));

    scheduler.fast_forward(half_weeks);
    assert_eq!(scheduler.next(), Option::Some(Schedule::Current(vec![1])));
}

#[test]
fn scheduler_wait() {
    let mut scheduler = Scheduler::with_time_source(Duration::seconds(1), VirtualTimeSource::new());

    scheduler.after(Duration::seconds(0), 0);
    scheduler.after(Duration::seconds(1), 1);
    scheduler.after(Duration::seconds(2), 2);

    assert_eq!(scheduler.wait(), Result::Ok(vec![0]));
    assert_eq!(scheduler.wait(), Result::Ok(vec![1]));
    assert_eq!(scheduler.wait(), Result::Ok(vec![2]));
}

#[test]
fn scheduler_wait_with_overrun() {
    let mut scheduler = Scheduler::with_time_source(Duration::seconds(1), VirtualTimeSource::new());

    scheduler.after(Duration::seconds(0), 0);
    scheduler.after(Duration::seconds(1), 1);
    scheduler.after(Duration::seconds(2), 2);

    scheduler.fast_forward(Duration::seconds(2));
    assert_eq!(scheduler.wait(), Result::Err(WaitError::Overrun(vec![0, 1])));
    assert_eq!(scheduler.wait(), Result::Ok(vec![2]));
}

#[test]
fn scheduler_cancel_whole_time_point() {
    let mut scheduler =
        Scheduler::with_time_source(Duration::milliseconds(100), VirtualTimeSource::new());

    scheduler.after(Duration::milliseconds(0), 0);
    scheduler.after(Duration::milliseconds(100), 1);
    scheduler.after(Duration::milliseconds(200), 2);
    scheduler.after(Duration::milliseconds(300), 4);

    scheduler.cancel(&1);
    scheduler.cancel(&2);

    assert_eq!(scheduler.wait(), Result::Ok(vec![0]));
    assert_eq!(scheduler.wait(), Result::Ok(vec![4]));
}

#[test]
fn scheduler_cancel_single_token() {
    let mut scheduler =
        Scheduler::with_time_source(Duration::milliseconds(100), VirtualTimeSource::new());

    scheduler.after(Duration::milliseconds(0), 0);
    scheduler.after(Duration::milliseconds(100), 1);
    scheduler.after(Duration::milliseconds(100), 2);
    scheduler.after(Duration::milliseconds(100), 3);
    scheduler.after(Duration::milliseconds(200), 4);
    scheduler.after(Duration::milliseconds(200), 5);

    scheduler.cancel(&1);
    scheduler.cancel(&4);

    assert_eq!(scheduler.wait(), Result::Ok(vec![0]));
    assert_eq!(scheduler.wait(), Result::Ok(vec![2, 3]));
    assert_eq!(scheduler.wait(), Result::Ok(vec![5]));
}
