use distract_engine::subscription::{Subscription, MAX_INTERVAL_MS, MIN_INTERVAL_MS, NANOS_PER_MILLI};

const START: u64 = 7_000_000_000;

fn ms(n: u64) -> u64 {
    n * NANOS_PER_MILLI
}

#[test]
fn nothing_is_due_until_someone_subscribes() {
    let mut subscription = Subscription::default();
    assert!(!subscription.is_subscribed());
    assert_eq!(subscription.poll(START), None);
}

#[test]
fn the_first_snapshot_is_due_immediately_and_reports_the_interval() {
    let mut subscription = Subscription::default();
    subscription.set_interval_ms(Some(100));
    assert_eq!(subscription.poll(START), Some(ms(100)));
}

#[test]
fn a_poll_inside_the_interval_is_not_due() {
    let mut subscription = Subscription::default();
    subscription.set_interval_ms(Some(100));
    assert!(subscription.poll(START).is_some());

    assert_eq!(subscription.poll(START + ms(99)), None);
    assert_eq!(subscription.poll(START + ms(100)), Some(ms(100)));
}

#[test]
fn dt_is_the_time_actually_elapsed_not_the_interval_asked_for() {
    let mut subscription = Subscription::default();
    subscription.set_interval_ms(Some(100));
    subscription.poll(START);

    let dt = subscription
        .poll(START + ms(250))
        .expect("a snapshot is due");
    assert_eq!(dt, ms(250), "dt was {dt}");
}

#[test]
fn an_interval_is_clamped_at_both_ends() {
    let mut subscription = Subscription::default();
    subscription.set_interval_ms(Some(1));
    assert_eq!(subscription.poll(START), Some(ms(MIN_INTERVAL_MS)));

    let mut slow = Subscription::default();
    slow.set_interval_ms(Some(600_000));
    assert_eq!(slow.poll(START), Some(ms(MAX_INTERVAL_MS)));
}

#[test]
fn zero_and_none_both_unsubscribe() {
    let mut subscription = Subscription::default();
    subscription.set_interval_ms(Some(100));
    subscription.set_interval_ms(Some(0));
    assert!(!subscription.is_subscribed());

    subscription.set_interval_ms(Some(100));
    subscription.set_interval_ms(None);
    assert!(!subscription.is_subscribed());
    assert_eq!(subscription.poll(START), None);
}

#[test]
fn snapshots_keep_the_cadence_they_were_asked_for() {
    let mut subscription = Subscription::default();
    subscription.set_interval_ms(Some(50));
    assert_eq!(subscription.poll(START), Some(ms(50)));
    assert_eq!(subscription.poll(START + ms(49)), None);
    assert_eq!(subscription.poll(START + ms(50)), Some(ms(50)));
    assert_eq!(subscription.poll(START + ms(120)), Some(ms(70)));
}

#[test]
fn a_clock_that_steps_back_is_not_due() {
    let mut subscription = Subscription::default();
    subscription.set_interval_ms(Some(100));
    subscription.poll(START);
    assert_eq!(subscription.poll(START - ms(5)), None);
}
