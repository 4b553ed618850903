use scheduler::{Duration, Scheduler};

#[test]
fn scheduler_wait_real_time() {
    let mut scheduler = Scheduler::new(Duration::milliseconds(100));

    scheduler.after(Duration::milliseconds(0), 0);
    scheduler.after(Duration::milliseconds(100), 1);
    scheduler.after(Duration::milliseconds(200), 2);

    assert_eq!(scheduler.wait(), Result::Ok(vec![0]));
    assert_eq!(scheduler.wait(), Result::Ok(vec![1]));
    assert_eq!(scheduler.wait(), Result::Ok(vec![2]));
}
