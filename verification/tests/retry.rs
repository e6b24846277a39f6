use http_cache_server::retry::{Attempts, Backoff, RetryStep};

#[test]
fn attempts_give_up_at_the_limit() {
    let mut a = Attempts::new(3);
    assert!(!a.on_failure());
    assert!(!a.on_failure());
    assert!(a.on_failure());
    assert_eq!(a.attempts(), 3);
}

#[test]
fn a_limit_of_zero_or_one_gives_up_at_once() {
    assert!(Attempts::new(0).on_failure());
    assert!(Attempts::new(1).on_failure());
}

#[test]
fn backoff_doubles_from_a_tenth_of_a_second() {
    let mut b = Backoff::new(3);
    assert_eq!(b.on_failure(), RetryStep::Wait { secs: 0, millis: 100 });
    assert_eq!(b.on_failure(), RetryStep::Wait { secs: 0, millis: 200 });
    assert_eq!(b.on_failure(), RetryStep::Wait { secs: 0, millis: 400 });
    assert_eq!(b.on_failure(), RetryStep::GiveUp);
}

#[test]
fn backoff_with_no_retries_gives_up() {
    assert_eq!(Backoff::new(0).on_failure(), RetryStep::GiveUp);
}

#[test]
fn backoff_pause_after_ten_retries() {
    let mut b = Backoff::new(20);
    for _ in 0..10 {
        b.on_failure();
    }
    assert_eq!(b.on_failure(), RetryStep::Wait { secs: 102, millis: 400 });
}
