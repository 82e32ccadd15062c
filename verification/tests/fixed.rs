use rate_limiter::fixed::FixedWindow;
use rate_limiter::limiter::{purge_expired, Denied, Limiter, Pause};

#[test]
fn fixed_admits_threshold_calls_per_window() {
    let mut limiter = FixedWindow::init(10, 3);
    assert_eq!(limiter.consume_at("a", 100), Ok(2));
    assert_eq!(limiter.consume_at("a", 101), Ok(1));
    assert_eq!(limiter.consume_at("a", 109), Ok(0));
    assert_eq!(limiter.consume_at("a", 109), Err(Denied));
}

#[test]
fn fixed_opens_a_new_window_after_expiry() {
    let mut limiter = FixedWindow::init(10, 3);
    for now in [100, 101, 102, 103] {
        let _ = limiter.consume_at("a", now);
    }
    assert_eq!(limiter.consume_at("a", 109), Err(Denied));
    assert_eq!(limiter.consume_at("a", 110), Ok(2));
    assert_eq!(limiter.window("a"), Some((120, 2)));
}

#[test]
fn fixed_window_runs_from_the_first_call() {
    let mut limiter = FixedWindow::init(10, 2);
    assert_eq!(limiter.consume_at("a", 7), Ok(1));
    assert_eq!(limiter.window("a"), Some((17, 1)));
    assert_eq!(limiter.consume_at("a", 16), Ok(0));
    assert_eq!(limiter.window("a"), Some((17, 0)));
}

#[test]
fn fixed_allows_a_burst_across_the_window_edge() {
    let mut limiter = FixedWindow::init(10, 2);
    assert_eq!(limiter.consume_at("a", 0), Ok(1));
    assert_eq!(limiter.consume_at("a", 9), Ok(0));
    assert_eq!(limiter.consume_at("a", 10), Ok(1));
    assert_eq!(limiter.consume_at("a", 10), Ok(0));
    assert_eq!(limiter.consume_at("a", 11), Err(Denied));
}

#[test]
fn fixed_denied_call_changes_nothing() {
    let mut limiter = FixedWindow::init(10, 1);
    assert_eq!(limiter.consume_at("a", 5), Ok(0));
    let before = limiter.window("a");
    assert_eq!(limiter.consume_at("a", 6), Err(Denied));
    assert_eq!(limiter.window("a"), before);
    assert_eq!(limiter.len(), 1);
}

#[test]
fn fixed_keys_are_isolated() {
    let mut limiter = FixedWindow::init(10, 2);
    assert_eq!(limiter.consume_at("a", 0), Ok(1));
    assert_eq!(limiter.consume_at("a", 1), Ok(0));
    assert_eq!(limiter.consume_at("a", 2), Err(Denied));
    assert_eq!(limiter.consume_at("b", 2), Ok(1));
    assert_eq!(limiter.window("a"), Some((10, 0)));
    assert_eq!(limiter.window("b"), Some((12, 1)));
}

#[test]
fn fixed_rearm_evicts_expired_windows_and_reports_the_earliest_left() {
    let mut limiter = FixedWindow::init(10, 2);
    assert_eq!(limiter.consume_at("a", 0), Ok(1));
    assert_eq!(limiter.consume_at("b", 5), Ok(1));
    assert_eq!(limiter.consume_at("c", 3), Ok(1));
    assert_eq!(limiter.rearm_at(9), Some(10));
    assert_eq!(limiter.len(), 3);
    assert_eq!(limiter.rearm_at(10), Some(13));
    assert!(!limiter.holds("a"));
    assert!(limiter.holds("b"));
    assert!(limiter.holds("c"));
    assert_eq!(limiter.rearm_at(14), Some(15));
    assert_eq!(limiter.len(), 1);
    assert_eq!(limiter.window("b"), Some((15, 1)));
}

#[test]
fn fixed_rearm_on_nothing_reports_nothing() {
    let mut limiter = FixedWindow::init(10, 2);
    assert_eq!(limiter.rearm_at(0), None);
    assert_eq!(limiter.consume_at("a", 0), Ok(1));
    assert_eq!(limiter.rearm_at(10), None);
    assert_eq!(limiter.len(), 0);
}

#[test]
fn fixed_key_is_gone_once_its_window_has_aged_out() {
    let mut limiter = FixedWindow::init(60, 5);
    assert_eq!(limiter.consume_at("a", 1000), Ok(4));
    assert!(limiter.holds("a"));
    limiter.rearm_at(1059);
    assert!(limiter.holds("a"));
    limiter.rearm_at(1060);
    assert!(!limiter.holds("a"));
}

#[test]
fn fixed_threshold_zero_admits_nothing_and_records_nothing() {
    let mut limiter = FixedWindow::init(10, 0);
    assert_eq!(limiter.consume_at("a", 0), Err(Denied));
    assert!(!limiter.holds("a"));
}

#[test]
fn fixed_remaining_is_below_threshold() {
    let mut limiter = FixedWindow::init(10, 4);
    for now in 0..25 {
        if let Ok(left) = limiter.consume_at("a", now) {
            assert!(left < 4);
        }
    }
}

#[test]
fn fixed_reads_its_own_clock() {
    let mut limiter = FixedWindow::init(3600, 2);
    assert_eq!(limiter.duration(), 3600);
    assert_eq!(limiter.threshold(), 2);
    assert_eq!(limiter.consume("a"), Ok(1));
    assert_eq!(limiter.consume("a"), Ok(0));
    assert_eq!(limiter.consume("a"), Err(Denied));
    assert_eq!(limiter.consume("b"), Ok(1));
    let expiry = limiter.window("a").unwrap().0;
    assert!(expiry >= 3600 && expiry < 3600 + 20);
    let wake = limiter.rearm().unwrap();
    assert_eq!(wake, expiry);
    assert!(limiter.origin().elapsed().as_secs() < 20);
}

#[test]
fn fixed_round_of_the_reclaimer_sleeps_until_the_earliest_expiry() {
    let mut limiter = FixedWindow::init(3600, 2);
    assert_eq!(purge_expired(&mut limiter), Pause::ForSignal);
    assert_eq!(limiter.consume("a"), Ok(1));
    let expiry = limiter.window("a").unwrap().0;
    assert_eq!(purge_expired(&mut limiter), Pause::Until(expiry));
}

#[test]
fn fixed_window_of_no_length_is_over_at_once() {
    let mut limiter = FixedWindow::init(0, 2);
    assert_eq!(limiter.consume_at("a", 5), Ok(1));
    assert_eq!(limiter.consume_at("a", 5), Ok(1));
    assert_eq!(limiter.rearm_at(5), None);
}

#[test]
fn fixed_answer_is_what_the_window_still_allows() {
    let mut limiter = FixedWindow::init(10, 4);
    for now in [3, 4, 9, 12] {
        let left = limiter.consume_at("a", now).unwrap();
        assert_eq!(limiter.window("a").unwrap().1, left);
    }
}

#[test]
fn fixed_pass_before_the_wake_time_changes_nothing() {
    let mut limiter = FixedWindow::init(10, 4);
    assert_eq!(limiter.consume_at("a", 3), Ok(3));
    assert_eq!(limiter.consume_at("b", 5), Ok(3));
    let wake = limiter.rearm_at(6).unwrap();
    assert!(wake > 6);
    assert_eq!(limiter.rearm_at(wake as u64 - 1), Some(wake));
    assert_eq!(limiter.len(), 2);
}

#[test]
fn fixed_takes_every_reading_of_the_clock() {
    let mut limiter = FixedWindow::init(10, 2);
    assert_eq!(limiter.consume_at("a", u64::MAX), Ok(1));
    assert_eq!(limiter.window("a"), Some((u64::MAX as u128 + 10, 1)));
    assert_eq!(limiter.consume_at("a", u64::MAX), Ok(0));
    assert_eq!(limiter.consume_at("a", u64::MAX), Err(Denied));
    assert_eq!(limiter.rearm_at(u64::MAX), Some(u64::MAX as u128 + 10));
    assert!(limiter.holds("a"));
}

#[test]
fn fixed_first_call_of_a_key_is_admitted_whatever_the_second() {
    for now in [0, 1, 59, 60, 1_000_000, u64::MAX] {
        let mut limiter = FixedWindow::init(60, 3);
        assert_eq!(limiter.consume_at("a", now), Ok(2));
    }
}
