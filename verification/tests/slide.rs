use rate_limiter::limiter::{purge_expired, Denied, Limiter, Pause};
use rate_limiter::slide::{first_live, live_records, SlidingWindow};

#[test]
fn slide_admits_threshold_calls_in_rapid_succession() {
    let mut limiter = SlidingWindow::init(10, 3);
    assert_eq!(limiter.consume_at("a", 100), Ok(2));
    assert_eq!(limiter.consume_at("a", 101), Ok(1));
    assert_eq!(limiter.consume_at("a", 102), Ok(0));
    assert_eq!(limiter.consume_at("a", 103), Err(Denied));
    assert_eq!(limiter.consume_at("a", 109), Err(Denied));
}

#[test]
fn slide_admits_again_once_the_oldest_has_expired_and_a_pass_has_run() {
    let mut limiter = SlidingWindow::init(10, 3);
    for now in [100, 101, 102] {
        assert!(limiter.consume_at("a", now).is_ok());
    }
    assert_eq!(limiter.consume_at("a", 109), Err(Denied));
    assert_eq!(limiter.rearm_at(109), Some(110));
    assert_eq!(limiter.consume_at("a", 109), Err(Denied));
    assert_eq!(limiter.rearm_at(110), Some(111));
    assert_eq!(limiter.consume_at("a", 110), Ok(0));
    assert_eq!(limiter.consume_at("a", 110), Err(Denied));
    assert_eq!(limiter.rearm_at(112), Some(120));
    assert_eq!(limiter.consume_at("a", 112), Ok(1));
}

#[test]
fn slide_denies_by_the_records_held_until_a_pass_has_run() {
    let mut limiter = SlidingWindow::init(1, 1);
    assert_eq!(limiter.consume_at("a", 0), Ok(0));
    assert_eq!(limiter.consume_at("a", 5), Err(Denied));
    assert_eq!(limiter.held("a"), 1);
    assert_eq!(limiter.live_at("a", 5), 0);
    assert_eq!(limiter.rearm_at(5), None);
    assert_eq!(limiter.consume_at("a", 5), Ok(0));
}

#[test]
fn slide_answer_is_the_threshold_less_the_records_held() {
    let mut limiter = SlidingWindow::init(1, 2);
    assert_eq!(limiter.consume_at("a", 0), Ok(1));
    assert_eq!(limiter.consume_at("a", 5), Ok(0));
    assert_eq!(limiter.held("a"), 2);
    assert_eq!(limiter.consume_at("a", 9), Err(Denied));
    assert_eq!(limiter.held("a"), 2);
}

#[test]
fn slide_counts_calls_of_the_same_second_one_by_one() {
    let mut limiter = SlidingWindow::init(10, 3);
    assert_eq!(limiter.consume_at("a", 5), Ok(2));
    assert_eq!(limiter.consume_at("a", 5), Ok(1));
    assert_eq!(limiter.consume_at("a", 5), Ok(0));
    assert_eq!(limiter.consume_at("a", 5), Err(Denied));
    assert_eq!(limiter.held("a"), 3);
    assert_eq!(limiter.live_at("a", 5), 3);
    assert_eq!(limiter.live_at("a", 14), 3);
    assert_eq!(limiter.live_at("a", 15), 0);
}

#[test]
fn slide_has_no_burst_across_a_window_edge() {
    let mut limiter = SlidingWindow::init(10, 2);
    assert_eq!(limiter.consume_at("a", 0), Ok(1));
    assert_eq!(limiter.consume_at("a", 9), Ok(0));
    limiter.rearm_at(10);
    assert_eq!(limiter.consume_at("a", 10), Ok(0));
    limiter.rearm_at(11);
    assert_eq!(limiter.consume_at("a", 11), Err(Denied));
    limiter.rearm_at(18);
    assert_eq!(limiter.consume_at("a", 18), Err(Denied));
    limiter.rearm_at(19);
    assert_eq!(limiter.consume_at("a", 19), Ok(0));
}

#[test]
fn slide_denied_call_changes_nothing() {
    let mut limiter = SlidingWindow::init(10, 1);
    assert_eq!(limiter.consume_at("a", 5), Ok(0));
    assert_eq!(limiter.consume_at("a", 6), Err(Denied));
    assert_eq!(limiter.held("a"), 1);
    assert_eq!(limiter.live_at("a", 6), 1);
    assert_eq!(limiter.rearm_at(6), Some(15));
}

#[test]
fn slide_keys_are_isolated() {
    let mut limiter = SlidingWindow::init(10, 2);
    assert_eq!(limiter.consume_at("a", 0), Ok(1));
    assert_eq!(limiter.consume_at("a", 0), Ok(0));
    assert_eq!(limiter.consume_at("a", 0), Err(Denied));
    assert_eq!(limiter.held("b"), 0);
    assert_eq!(limiter.consume_at("b", 0), Ok(1));
    assert_eq!(limiter.held("a"), 2);
}

#[test]
fn slide_rearm_takes_out_what_expired_and_reports_the_earliest_left() {
    let mut limiter = SlidingWindow::init(10, 3);
    assert_eq!(limiter.consume_at("a", 0), Ok(2));
    assert_eq!(limiter.consume_at("a", 4), Ok(1));
    assert_eq!(limiter.consume_at("b", 2), Ok(2));
    assert_eq!(limiter.rearm_at(9), Some(10));
    assert_eq!(limiter.rearm_at(10), Some(12));
    assert!(limiter.holds("a"));
    assert_eq!(limiter.held("a"), 1);
    assert_eq!(limiter.rearm_at(12), Some(14));
    assert!(!limiter.holds("b"));
    assert_eq!(limiter.len(), 1);
    assert_eq!(limiter.rearm_at(14), None);
    assert_eq!(limiter.len(), 0);
}

#[test]
fn slide_key_is_gone_once_all_its_entries_have_aged_out() {
    let mut limiter = SlidingWindow::init(60, 5);
    assert_eq!(limiter.consume_at("a", 1000), Ok(4));
    assert_eq!(limiter.consume_at("a", 1010), Ok(3));
    limiter.rearm_at(1060);
    assert!(limiter.holds("a"));
    limiter.rearm_at(1069);
    assert!(limiter.holds("a"));
    limiter.rearm_at(1070);
    assert!(!limiter.holds("a"));
}

#[test]
fn slide_keeps_its_log_in_order_when_the_clock_steps_back() {
    let mut limiter = SlidingWindow::init(10, 3);
    assert_eq!(limiter.consume_at("a", 20), Ok(2));
    assert_eq!(limiter.consume_at("a", 5), Ok(1));
    assert_eq!(limiter.rearm_at(0), Some(15));
    assert_eq!(limiter.rearm_at(15), Some(30));
}

#[test]
fn slide_takes_every_reading_of_the_clock() {
    let mut limiter = SlidingWindow::init(10, 2);
    assert_eq!(limiter.consume_at("a", u64::MAX), Ok(1));
    assert_eq!(limiter.consume_at("a", u64::MAX - 3), Ok(0));
    assert_eq!(limiter.rearm_at(u64::MAX), Some(u64::MAX as u128 + 7));
    assert_eq!(limiter.held("a"), 2);
}

#[test]
fn slide_records_without_a_lifetime_expire_at_once() {
    let mut limiter = SlidingWindow::init(0, 2);
    assert_eq!(limiter.consume_at("a", u64::MAX), Ok(1));
    assert_eq!(limiter.live_at("a", u64::MAX), 0);
    assert_eq!(limiter.rearm_at(u64::MAX), None);
    assert!(!limiter.holds("a"));
}

#[test]
fn first_live_second() {
    assert_eq!(first_live(5, 10), Some(0));
    assert_eq!(first_live(9, 10), Some(0));
    assert_eq!(first_live(10, 10), Some(1));
    assert_eq!(first_live(25, 10), Some(16));
    assert_eq!(first_live(7, 0), Some(8));
    assert_eq!(first_live(u64::MAX, 0), None);
    assert_eq!(first_live(u64::MAX, 1), Some(u64::MAX));
}

#[test]
fn live_records_of_a_log() {
    assert_eq!(live_records(&vec![1, 5, 6, 9], 15, 10), vec![6, 9]);
    assert_eq!(live_records(&vec![1, 5, 6, 9], 3, 10), vec![1, 5, 6, 9]);
    assert_eq!(live_records(&vec![1, 5, 6, 9], 19, 10), Vec::<u64>::new());
    assert_eq!(live_records(&vec![1, u64::MAX], u64::MAX, 0), Vec::<u64>::new());
}

#[test]
fn slide_threshold_zero_admits_nothing_and_records_nothing() {
    let mut limiter = SlidingWindow::init(10, 0);
    assert_eq!(limiter.consume_at("a", 0), Err(Denied));
    assert!(!limiter.holds("a"));
}

#[test]
fn slide_remaining_is_below_threshold() {
    let mut limiter = SlidingWindow::init(7, 4);
    for now in 0..40 {
        limiter.rearm_at(now);
        if let Ok(left) = limiter.consume_at("a", now) {
            assert!(left < 4);
        }
        assert!(limiter.held("a") <= 4);
    }
}

#[test]
fn slide_reads_its_own_clock() {
    let mut limiter = SlidingWindow::init(3600, 2);
    assert_eq!(limiter.duration(), 3600);
    assert_eq!(limiter.threshold(), 2);
    assert_eq!(limiter.consume("a"), Ok(1));
    assert_eq!(limiter.consume("a"), Ok(0));
    assert_eq!(limiter.consume("a"), Err(Denied));
    let wake = limiter.rearm().unwrap();
    assert!(wake >= 3600 && wake < 3600 + 20);
    assert!(limiter.origin().elapsed().as_secs() < 20);
}

#[test]
fn slide_round_of_the_reclaimer_sleeps_until_the_earliest_expiry() {
    let mut limiter = SlidingWindow::init(3600, 2);
    assert_eq!(purge_expired(&mut limiter), Pause::ForSignal);
    assert_eq!(limiter.consume("a"), Ok(1));
    match purge_expired(&mut limiter) {
        Pause::Until(t) => assert!(t >= 3600 && t < 3600 + 20),
        Pause::ForSignal => panic!("a live admission must give a wake time"),
    }
}

#[test]
fn slide_answer_is_what_the_key_can_still_get() {
    let mut limiter = SlidingWindow::init(10, 4);
    for now in [3, 4, 9, 13] {
        let left = limiter.consume_at("a", now).unwrap();
        assert_eq!(4 - limiter.held("a"), left);
    }
}

#[test]
fn slide_pass_before_the_wake_time_changes_nothing() {
    let mut limiter = SlidingWindow::init(10, 4);
    assert_eq!(limiter.consume_at("a", 3), Ok(3));
    assert_eq!(limiter.consume_at("b", 5), Ok(3));
    let wake = limiter.rearm_at(6).unwrap();
    assert!(wake > 6);
    assert_eq!(limiter.rearm_at(wake as u64 - 1), Some(wake));
    assert_eq!(limiter.len(), 2);
}
