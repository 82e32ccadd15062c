use rate_limiter::approximation::{load_of, nearest_minute, seconds_of, tally, Approximation, Entry};
use rate_limiter::limiter::{Denied, Limiter};

#[test]
fn load_takes_the_previous_minute_by_its_weight() {
    assert_eq!(load_of(10, 0, 0, 60), 10);
    assert_eq!(load_of(10, 0, 1, 60), 9);
    assert_eq!(load_of(10, 0, 30, 60), 5);
    assert_eq!(load_of(10, 0, 59, 60), 0);
    assert_eq!(load_of(3, 2, 20, 60), 4);
    assert_eq!(load_of(0, 7, 45, 60), 7);
    assert_eq!(load_of(7, 4, 30, 120), 9);
}

#[test]
fn load_with_a_negative_weight_stops_at_zero() {
    assert_eq!(load_of(4, 5, 45, 30), 3);
    assert_eq!(load_of(20, 1, 45, 30), 0);
    assert_eq!(load_of(4, 5, 30, 30), 5);
}

#[test]
fn load_without_a_duration_is_zero() {
    assert_eq!(load_of(4, 5, 0, 0), 0);
    assert_eq!(load_of(0, 5, 10, 0), 0);
}

#[test]
fn minute_of_a_second() {
    assert_eq!(nearest_minute(0), 0);
    assert_eq!(nearest_minute(59), 0);
    assert_eq!(nearest_minute(60), 1);
    assert_eq!(nearest_minute(125), 2);
    assert_eq!(nearest_minute(u64::MAX), u64::MAX / 60);
}

#[test]
fn clock_reading_before_the_epoch_counts_as_zero() {
    assert_eq!(seconds_of(-5), 0);
    assert_eq!(seconds_of(0), 0);
    assert_eq!(seconds_of(1_700_000_000), 1_700_000_000);
}

#[test]
fn tally_splits_hits_by_the_minute_in_which_the_window_begins() {
    let log = vec![50, 60, 70, 119, 120, 130];
    assert_eq!(tally(&log, 125, 60), (3, 2));
    assert_eq!(tally(&log, 180, 60), (2, 0));
    assert_eq!(tally(&log, 130, 120), (1, 5));
}

#[test]
fn tally_before_the_window_fits_counts_every_hit_as_current() {
    let log = vec![1, 2, 3];
    assert_eq!(tally(&log, 30, 60), (0, 3));
}

#[test]
fn approximation_admits_threshold_calls_within_a_minute() {
    let mut limiter = Approximation::init(60, 3);
    assert_eq!(limiter.consume_at("a", 630), Ok(2));
    assert_eq!(limiter.consume_at("a", 631), Ok(1));
    assert_eq!(limiter.consume_at("a", 632), Ok(0));
    assert_eq!(limiter.consume_at("a", 633), Err(Denied));
}

#[test]
fn approximation_weighs_calls_made_just_before_a_minute_boundary() {
    let mut limiter = Approximation::init(60, 10);
    for i in 0..10 {
        assert_eq!(limiter.consume_at("a", 659), Ok(9 - i));
    }
    assert_eq!(limiter.consume_at("a", 659), Err(Denied));
    // One second into the next minute the ten calls weigh 59/60 each.
    let load = limiter.load_at("a", 661);
    assert_eq!(load, 9);
    assert!(0 < load && load < 10);
    // All ten are within the last 60 seconds: the estimate is one short.
    assert!(10 - load <= 1);
    assert_eq!(limiter.consume_at("a", 661), Ok(0));
    assert_eq!(limiter.consume_at("a", 661), Err(Denied));
    assert_eq!(limiter.load_at("a", 661), 10);
}

#[test]
fn approximation_forgets_the_previous_minute_as_the_current_one_runs() {
    let mut limiter = Approximation::init(60, 4);
    for _ in 0..4 {
        assert!(limiter.consume_at("a", 600).is_ok());
    }
    assert_eq!(limiter.load_at("a", 660), 4);
    assert_eq!(limiter.load_at("a", 675), 3);
    assert_eq!(limiter.load_at("a", 690), 2);
    assert_eq!(limiter.load_at("a", 705), 1);
    assert_eq!(limiter.load_at("a", 719), 0);
    assert_eq!(limiter.load_at("a", 720), 0);
}

#[test]
fn approximation_denied_call_changes_nothing() {
    let mut limiter = Approximation::init(60, 1);
    assert_eq!(limiter.consume_at("a", 600), Ok(0));
    assert_eq!(limiter.consume_at("a", 601), Err(Denied));
    assert_eq!(limiter.load_at("a", 601), 1);
    assert_eq!(limiter.len(), 1);
}

#[test]
fn approximation_keys_are_isolated() {
    let mut limiter = Approximation::init(60, 2);
    assert_eq!(limiter.consume_at("a", 600), Ok(1));
    assert_eq!(limiter.consume_at("a", 600), Ok(0));
    assert_eq!(limiter.consume_at("a", 600), Err(Denied));
    assert_eq!(limiter.load_at("b", 600), 0);
    assert_eq!(limiter.consume_at("b", 600), Ok(1));
    assert_eq!(limiter.load_at("a", 600), 2);
}

#[test]
fn approximation_rearm_drops_hits_older_than_the_window() {
    let mut limiter = Approximation::init(60, 5);
    assert_eq!(limiter.consume_at("a", 600), Ok(4));
    assert_eq!(limiter.consume_at("a", 630), Ok(3));
    assert_eq!(limiter.consume_at("b", 610), Ok(4));
    assert_eq!(limiter.rearm_at(660), None);
    assert_eq!(limiter.len(), 2);
    assert_eq!(limiter.rearm_at(671), None);
    assert!(limiter.holds("a"));
    assert!(!limiter.holds("b"));
    assert_eq!(limiter.rearm_at(690), None);
    assert!(limiter.holds("a"));
    assert_eq!(limiter.rearm_at(691), None);
    assert!(!limiter.holds("a"));
    assert_eq!(limiter.len(), 0);
}

#[test]
fn approximation_rearm_before_the_window_fits_keeps_everything() {
    let mut limiter = Approximation::init(60, 5);
    assert_eq!(limiter.consume_at("a", 10), Ok(4));
    assert_eq!(limiter.rearm_at(59), None);
    assert!(limiter.holds("a"));
    assert_eq!(limiter.rearm_at(70), None);
    assert!(limiter.holds("a"));
    assert_eq!(limiter.rearm_at(71), None);
    assert!(!limiter.holds("a"));
}

#[test]
fn approximation_threshold_zero_admits_nothing_and_records_nothing() {
    let mut limiter = Approximation::init(60, 0);
    assert_eq!(limiter.consume_at("a", 600), Err(Denied));
    assert!(!limiter.holds("a"));
}

#[test]
fn approximation_remaining_is_below_threshold() {
    let mut limiter = Approximation::init(60, 4);
    for now in 600..900 {
        if let Ok(left) = limiter.consume_at("a", now) {
            assert!(left < 4);
        }
    }
}

#[test]
fn approximation_with_a_short_window_counts_the_running_minute_as_previous() {
    let mut limiter = Approximation::init(30, 3);
    // The window begins in the running minute, whose hits weigh 1 - 45/30.
    assert_eq!(limiter.consume_at("a", 645), Ok(2));
    assert_eq!(limiter.consume_at("a", 645), Ok(2));
    assert_eq!(limiter.load_at("a", 645), 0);
    // Seen from a second whose window begins a minute earlier, they count in full.
    assert_eq!(limiter.load_at("a", 615), 2);
}

#[test]
fn approximation_reads_the_wall_clock() {
    let mut limiter = Approximation::init(3600, 2);
    assert_eq!(limiter.duration(), 3600);
    assert_eq!(limiter.threshold(), 2);
    assert_eq!(limiter.consume("a"), Ok(1));
    assert_eq!(limiter.consume("a"), Ok(0));
    assert_eq!(limiter.consume("a"), Err(Denied));
    assert_eq!(limiter.rearm(), None);
    assert!(limiter.holds("a"));
}

#[test]
fn entry_holds_its_hits() {
    let entry = Entry { hits: vec![1, 2, 3] };
    assert_eq!(entry.hits.len(), 3);
}

#[test]
fn approximation_counts_rapid_calls_in_full() {
    let mut limiter = Approximation::init(120, 3);
    assert_eq!(limiter.load_at("a", 1000), 0);
    assert_eq!(limiter.consume_at("a", 1000), Ok(2));
    assert_eq!(limiter.load_at("a", 1001), 1);
    assert_eq!(limiter.consume_at("a", 1001), Ok(1));
    assert_eq!(limiter.consume_at("a", 1002), Ok(0));
    assert_eq!(limiter.load_at("a", 1003), 3);
    assert_eq!(limiter.consume_at("a", 1003), Err(Denied));
}
