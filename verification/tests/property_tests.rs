use scheduler::{Duration, Schedule, Scheduler, SteadyTimeSource, VirtualTimeSource, WaitError};

#[test]
fn quantization_floor_examples() {
    let scheduler: Scheduler<(), SteadyTimeSource> = Scheduler::new(Duration::seconds(1));
    for d in [
        Duration::seconds(0),
        Duration::milliseconds(1),
        Duration::milliseconds(999),
        Duration::seconds(1),
        Duration::milliseconds(1500),
        Duration::milliseconds(2800),
    ] {
        let tp = scheduler.to_time_point(d);
        assert!(scheduler.to_duration(tp).num_nanoseconds() <= d.num_nanoseconds());
        assert!(d.num_nanoseconds() < scheduler.to_duration(tp + 1).num_nanoseconds());
    }
}

#[test]
fn bucket_example_sequence() {
    let mut scheduler = Scheduler::with_time_source(Duration::seconds(1), VirtualTimeSource::new());

    scheduler.after(Duration::seconds(0), "A");
    assert_eq!(scheduler.next(), Some(Schedule::Current(vec!["A"])));

    scheduler.after(Duration::seconds(1), "B");
    assert_eq!(scheduler.next(), Some(Schedule::NextIn(Duration::seconds(1))));
    scheduler.fast_forward(Duration::milliseconds(100));
    assert_eq!(scheduler.next(), Some(Schedule::NextIn(Duration::milliseconds(900))));
    scheduler.fast_forward(Duration::milliseconds(900));
    assert_eq!(scheduler.next(), Some(Schedule::Current(vec!["B"])));
    assert_eq!(scheduler.next(), None);
}

#[test]
fn cancel_leaves_other_tokens_in_arm_order() {
    let mut scheduler = Scheduler::with_time_source(Duration::seconds(1), VirtualTimeSource::new());

    scheduler.after(Duration::seconds(0), 1);
    scheduler.after(Duration::seconds(0), 2);
    scheduler.after(Duration::seconds(0), 3);
    scheduler.cancel(&1);

    assert_eq!(scheduler.next(), Some(Schedule::Current(vec![2, 3])));
}

#[test]
fn cancel_only_task_removes_bucket() {
    let mut scheduler = Scheduler::with_time_source(Duration::seconds(1), VirtualTimeSource::new());

    scheduler.after(Duration::seconds(1), 7);
    scheduler.cancel(&7);
    assert_eq!(scheduler.next(), None);

    scheduler.after(Duration::seconds(1), 1);
    scheduler.after(Duration::seconds(2), 2);
    scheduler.cancel(&1);
    assert_eq!(scheduler.next(), Some(Schedule::NextIn(Duration::seconds(2))));
}

#[test]
fn same_bucket_fires_in_arm_order() {
    let mut scheduler = Scheduler::with_time_source(Duration::seconds(1), VirtualTimeSource::new());

    // Armed at 0ms, due at 1900ms; due later than the other task but
    // armed earlier, so it must fire first.
    scheduler.after(Duration::milliseconds(1900), 20);
    scheduler.fast_forward(Duration::milliseconds(500));
    // Armed at 500ms, due at 1500ms: the same bucket, later arm time.
    scheduler.after(Duration::milliseconds(1000), 10);

    scheduler.fast_forward(Duration::milliseconds(500));
    assert_eq!(scheduler.next(), Some(Schedule::Current(vec![20, 10])));
}

#[test]
fn boundary_bucket_is_current_not_overrun() {
    let mut scheduler = Scheduler::with_time_source(Duration::seconds(1), VirtualTimeSource::new());

    scheduler.after(Duration::seconds(1), 9);
    scheduler.fast_forward(Duration::seconds(1));
    assert_eq!(scheduler.next(), Some(Schedule::Current(vec![9])));
}

#[test]
fn wait_on_empty_scheduler_fails() {
    let mut scheduler: Scheduler<u32, VirtualTimeSource> =
        Scheduler::with_time_source(Duration::seconds(1), VirtualTimeSource::new());
    assert_eq!(scheduler.wait(), Err(WaitError::Empty));
}

#[test]
fn steady_clock_reports_immediate_task() {
    let mut scheduler = Scheduler::new(Duration::milliseconds(100));
    scheduler.after(Duration::milliseconds(0), 1);
    assert_eq!(scheduler.next(), Some(Schedule::Current(vec![1])));
}
