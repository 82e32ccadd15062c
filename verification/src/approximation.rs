//! Weighted sliding-window approximation: a key's admissions are counted
//! in two parts, those of the minute in which the window begins and those
//! after it, and the first part counts for less the further the current
//! minute has run.
//!
//! Times are whole seconds of Unix time. Minutes are counted from second 0,
//! which is where the minutes of a wall clock begin in every time zone
//! whose offset from UTC is a whole number of minutes. The weight takes the
//! window to be made of whole minutes: with a `duration` that is no
//! multiple of 60 the estimate is coarser, and with one below 60 the weight
//! can fall below 0, where the load stops at 0.

use crate::clock::unix_seconds;
use crate::limiter::{Denied, Limiter};
use crate::table::Table;
use crate::timeline::{
    add_entry, ascending, count_from, entries_from, keep_entries_from, lemma_count_from_falls,
    lemma_entries_from, lemma_entries_from_tail, lemma_with_entry_holds, with_entry,
};
use vstd::prelude::*;

verus! {

/// The minute in which the window of `duration` seconds that ends at
/// `now` begins. Minute `m` runs from second `60 * m` up to, and not
/// including, second `60 * m + 60`.
pub open spec fn previous_minute(now: int, duration: int) -> int {
    (now - duration) / 60
}

/// The hits of `log` that fall into the minute in which the window begins.
pub open spec fn hits_in_previous(log: Seq<u64>, now: int, duration: int) -> nat {
    let start = 60 * previous_minute(now, duration);
    (count_from(log, start) - count_from(log, start + 60)) as nat
}

/// The hits of `log` that fall after the minute in which the window
/// begins.
pub open spec fn hits_after_previous(log: Seq<u64>, now: int, duration: int) -> nat {
    count_from(log, 60 * previous_minute(now, duration) + 60)
}

/// The two counts together are the hits from the start of the minute in
/// which the window begins; what lies before that minute counts nowhere.
pub proof fn lemma_counts_add_up(log: Seq<u64>, now: int, duration: int)
    ensures
        hits_in_previous(log, now, duration) + hits_after_previous(log, now, duration)
            == count_from(log, 60 * previous_minute(now, duration)),
        hits_in_previous(log, now, duration) + hits_after_previous(log, now, duration)
            <= log.len(),
{
    let start = 60 * previous_minute(now, duration);
    lemma_count_from_falls(log, start, start + 60);
    lemma_entries_from(log, start);
}

/// The load that `prev` hits of the previous minute and `cur` hits since
/// then amount to when the current minute has run for `second` seconds:
/// the whole part of `prev * (1 - second / duration) + cur`, and 0 where
/// that is negative or `duration` is 0.
pub open spec fn weighted_load(prev: nat, cur: nat, second: nat, duration: nat) -> nat {
    let scaled = prev * (duration - second) + cur * duration;
    if duration == 0 || scaled <= 0 {
        0
    } else {
        (scaled / (duration as int)) as nat
    }
}

/// The load is never more than the hits there are. While the weight of
/// the previous minute is not negative it is never less than the hits
/// since; at the start of a minute every hit counts in full; and while the
/// weight is strictly between 0 and 1 the previous minute's hits count for
/// less than their number.
pub proof fn lemma_load_between(prev: nat, cur: nat, second: nat, duration: nat)
    ensures
        weighted_load(prev, cur, second, duration) <= prev + cur,
        second <= duration && duration > 0 ==> cur <= weighted_load(prev, cur, second, duration),
        second == 0 && duration > 0 ==> weighted_load(prev, cur, second, duration) == prev + cur,
        0 < second < duration && prev >= 1 ==> weighted_load(prev, cur, second, duration) < prev
            + cur,
{
    if duration > 0 {
        let d = duration as int;
        let scaled = prev * (duration - second) + cur * duration;
        assert(scaled <= (prev + cur) * d) by (nonlinear_arith)
            requires
                scaled == prev * (d - second) + cur * d,
                d > 0,
        ;
        if scaled > 0 {
            assert(scaled / d <= prev + cur) by (nonlinear_arith)
                requires
                    scaled <= (prev + cur) * d,
                    d > 0,
            ;
        }
        if second <= duration {
            assert(scaled >= cur * d && (scaled > 0 ==> scaled / d >= cur) && (scaled <= 0 ==> cur
                == 0)) by (nonlinear_arith)
                requires
                    scaled == prev * (d - second) + cur * d,
                    second <= d,
                    d > 0,
            ;
        }
        if second == 0 {
            assert(scaled == (prev + cur) * d && (scaled > 0 ==> scaled / d == prev + cur) && (
            scaled <= 0 ==> prev + cur == 0)) by (nonlinear_arith)
                requires
                    scaled == prev * (d - second) + cur * d,
                    second == 0,
                    d > 0,
            ;
        }
        if 0 < second < duration && prev >= 1 {
            assert(scaled < (prev + cur) * d && (scaled > 0 ==> scaled / d < prev + cur))
                by (nonlinear_arith)
                requires
                    scaled == prev * (d - second) + cur * d,
                    0 < second < d,
                    prev >= 1,
            ;
        }
    }
}

/// Early in a minute the load falls short of the number of hits by one at
/// most: as long as `prev * second` has not passed `duration`.
pub proof fn lemma_load_short_by_one(prev: nat, cur: nat, second: nat, duration: nat)
    requires
        duration > 0,
        prev * second <= duration,
    ensures
        prev + cur <= weighted_load(prev, cur, second, duration) + 1,
{
    let d = duration as int;
    let scaled = prev * (duration - second) + cur * duration;
    assert(scaled >= (prev + cur - 1) * d) by (nonlinear_arith)
        requires
            scaled == prev * (d - second) + cur * d,
            prev * second <= d,
    ;
    if prev + cur >= 1 {
        assert(scaled >= 0 && (scaled > 0 ==> scaled / d >= prev + cur - 1) && (scaled == 0
            ==> prev + cur == 1)) by (nonlinear_arith)
            requires
                scaled >= (prev + cur - 1) * d,
                prev + cur >= 1,
                d > 0,
        ;
    }
}

/// Hits that all lie after the minute in which the window begins count in
/// full: the load is their number.
pub proof fn lemma_full_load(log: Seq<u64>, now: nat, duration: nat)
    requires
        duration > 0,
        forall|i: int|
            0 <= i < log.len() ==> #[trigger] log[i] >= 60 * previous_minute(
                now as int,
                duration as int,
            ) + 60,
    ensures
        hits_in_previous(log, now as int, duration as int) == 0,
        hits_after_previous(log, now as int, duration as int) == log.len(),
        weighted_load(
            hits_in_previous(log, now as int, duration as int),
            hits_after_previous(log, now as int, duration as int),
            now % 60,
            duration,
        ) == log.len(),
{
    let start = 60 * previous_minute(now as int, duration as int);
    lemma_entries_from(log, start);
    lemma_entries_from(log, start + 60);
    let d = duration as int;
    let n = log.len() as int;
    assert(n * d / d == n && (n > 0 ==> n * d > 0)) by (nonlinear_arith)
        requires
            d > 0,
    ;
    assert(0 * (d - (now % 60)) == 0) by (nonlinear_arith);
}

/// What an approximating limiter records: for each key the seconds of its
/// admissions, in ascending order. Times are seconds of Unix time.
pub struct ApproximationModel {
    pub duration: nat,
    pub threshold: nat,
    pub hits: Map<Seq<char>, Seq<u64>>,
}

impl ApproximationModel {
    /// Every log is in ascending order and holds at least one hit.
    pub open spec fn wf(self) -> bool {
        forall|k: Seq<char>| #[trigger]
            self.hits.contains_key(k) ==> ascending(self.hits[k]) && self.hits[k].len() > 0
    }

    /// The hits of `key`, none for a key that has no log.
    pub open spec fn log(self, key: Seq<char>) -> Seq<u64> {
        if self.hits.contains_key(key) {
            self.hits[key]
        } else {
            Seq::empty()
        }
    }

    /// The approximate load of `key` at `now`.
    pub open spec fn load(self, key: Seq<char>, now: nat) -> nat {
        weighted_load(
            hits_in_previous(self.log(key), now as int, self.duration as int),
            hits_after_previous(self.log(key), now as int, self.duration as int),
            now % 60,
            self.duration,
        )
    }

    /// The admissions that `key` can still get at `now`.
    pub open spec fn available(self, key: Seq<char>, now: nat) -> nat {
        if self.load(key, now) < self.threshold {
            (self.threshold - self.load(key, now)) as nat
        } else {
            0
        }
    }

    /// Whether a call for `key` at `now` is admitted.
    pub open spec fn admits(self, key: Seq<char>, now: nat) -> bool {
        self.load(key, now) < self.threshold
    }

    /// The answer to a call for `key` at `now`: the admissions left after
    /// it, or a denial.
    pub open spec fn answer(self, key: Seq<char>, now: nat) -> Result<usize, Denied> {
        if self.admits(key, now) {
            Ok((self.threshold - self.load(key, now) - 1) as usize)
        } else {
            Err(Denied)
        }
    }

    /// The state after a call for `key` at `now`. A denied call changes
    /// nothing; an admitted call adds `now` to the key's hits.
    pub open spec fn consume(self, key: Seq<char>, now: nat) -> ApproximationModel {
        if self.admits(key, now) {
            ApproximationModel {
                duration: self.duration,
                threshold: self.threshold,
                hits: self.hits.insert(key, with_entry(self.log(key), now as u64)),
            }
        } else {
            self
        }
    }

    /// The state after a reclamation pass at `now`: each log without the
    /// hits from before `now - duration`, and no key whose log that
    /// empties.
    pub open spec fn purge(self, now: nat) -> ApproximationModel {
        ApproximationModel {
            duration: self.duration,
            threshold: self.threshold,
            hits: Map::new(
                |k: Seq<char>|
                    self.hits.contains_key(k) && count_from(self.hits[k], now - self.duration) > 0,
                |k: Seq<char>| entries_from(self.hits[k], now - self.duration),
            ),
        }
    }

    /// The state after one call for `key` at each of `times`, in order.
    pub open spec fn consume_all(self, key: Seq<char>, times: Seq<nat>) -> ApproximationModel
        decreases times.len(),
    {
        if times.len() == 0 {
            self
        } else {
            self.consume_all(key, times.drop_last()).consume(key, times.last())
        }
    }

    /// When a key that is new is called at `times`, none of them before
    /// `floor`, its log takes one hit per call up to the threshold and
    /// holds nothing from before `floor`.
    pub proof fn lemma_log_after(self, key: Seq<char>, times: Seq<nat>, floor: int)
        requires
            self.duration > 0,
            !self.hits.contains_key(key),
            forall|j: int| 0 <= j < times.len() ==> floor <= #[trigger] times[j] <= u64::MAX,
            forall|i: int, j: int|
                0 <= i < times.len() && 0 <= j < times.len() ==> #[trigger] times[j] >= 60
                    * previous_minute(#[trigger] times[i] as int, self.duration as int) + 60,
        ensures
            self.consume_all(key, times).duration == self.duration,
            self.consume_all(key, times).threshold == self.threshold,
            ascending(self.consume_all(key, times).log(key)),
            self.consume_all(key, times).log(key).len() == if times.len() <= self.threshold {
                times.len()
            } else {
                self.threshold
            },
            forall|i: int|
                0 <= i < self.consume_all(key, times).log(key).len() ==> #[trigger] self.consume_all(
                    key,
                    times,
                ).log(key)[i] >= floor,
        decreases times.len(),
    {
        if times.len() > 0 {
            let earlier = times.drop_last();
            let now = times.last();
            assert(now == times[times.len() - 1]);
            let start = 60 * previous_minute(now as int, self.duration as int);
            assert forall|j: int| 0 <= j < earlier.len() implies floor <= #[trigger] earlier[j]
                <= u64::MAX && start + 60 <= earlier[j] by {
                assert(earlier[j] == times[j]);
            }
            assert forall|i: int, j: int|
                0 <= i < earlier.len() && 0 <= j < earlier.len() implies #[trigger] earlier[j]
                >= 60 * previous_minute(#[trigger] earlier[i] as int, self.duration as int)
                + 60 by {
                assert(earlier[j] == times[j] && earlier[i] == times[i]);
            }
            self.lemma_log_after(key, earlier, floor);
            self.lemma_log_after(key, earlier, start + 60);
            let before = self.consume_all(key, earlier);
            let log = before.log(key);
            lemma_full_load(log, now, self.duration);
            lemma_with_entry_holds(log, now as u64);
            if before.admits(key, now) {
                let grown = with_entry(log, now as u64);
                assert(self.consume_all(key, times).log(key) == grown);
                assert forall|i: int| 0 <= i < grown.len() implies #[trigger] grown[i]
                    >= floor by {
                    if grown[i] != now as u64 {
                        let j = choose|j: int| 0 <= j < log.len() && log[j] == grown[i];
                        assert(log[j] >= floor);
                    }
                }
            }
        }
    }

    /// With threshold `T`, the calls for a key that is new are admitted
    /// while they are among the first `T`, call `i` (from 0) leaving
    /// `T - 1 - i`, and denied after that, as long as every call comes
    /// after the minute in which the window of every other begins: then
    /// each hit counts in full.
    pub proof fn lemma_threshold_in_rapid_succession(self, key: Seq<char>, times: Seq<nat>, i: int)
        requires
            self.duration > 0,
            !self.hits.contains_key(key),
            forall|j: int| 0 <= j < times.len() ==> #[trigger] times[j] <= u64::MAX,
            forall|i: int, j: int|
                0 <= i < times.len() && 0 <= j < times.len() ==> #[trigger] times[j] >= 60
                    * previous_minute(#[trigger] times[i] as int, self.duration as int) + 60,
            0 <= i < times.len(),
        ensures
            self.consume_all(key, times.take(i)).load(key, times[i]) == if i <= self.threshold {
                i as nat
            } else {
                self.threshold
            },
            i < self.threshold ==> self.consume_all(key, times.take(i)).answer(key, times[i])
                == Ok::<usize, Denied>((self.threshold - 1 - i) as usize),
            i >= self.threshold ==> self.consume_all(key, times.take(i)).answer(key, times[i])
                == Err::<usize, Denied>(Denied),
    {
        let earlier = times.take(i);
        let now = times[i];
        let start = 60 * previous_minute(now as int, self.duration as int);
        assert forall|j: int| 0 <= j < earlier.len() implies start + 60 <= #[trigger] earlier[j]
            <= u64::MAX by {
            assert(earlier[j] == times[j]);
        }
        assert forall|a: int, b: int|
            0 <= a < earlier.len() && 0 <= b < earlier.len() implies #[trigger] earlier[b] >= 60
            * previous_minute(#[trigger] earlier[a] as int, self.duration as int) + 60 by {
            assert(earlier[b] == times[b] && earlier[a] == times[a]);
        }
        self.lemma_log_after(key, earlier, start + 60);
        lemma_full_load(self.consume_all(key, earlier).log(key), now, self.duration);
    }

    /// A call for one key leaves every other key's hits as they were.
    pub proof fn lemma_other_keys_untouched(self, key: Seq<char>, now: nat, other: Seq<char>)
        requires
            other != key,
        ensures
            self.consume(key, now).hits.contains_key(other) == self.hits.contains_key(other),
            self.consume(key, now).log(other) == self.log(other),
            forall|t: nat| #[trigger]
                self.consume(key, now).available(other, t) == self.available(other, t),
    {
    }

    /// A reclamation pass at `now` drops the key whose hits all lie before
    /// `now - duration`.
    pub proof fn lemma_purge_drops_expired(self, key: Seq<char>, now: nat)
        ensures
            (forall|i: int|
                0 <= i < self.log(key).len() ==> #[trigger] self.log(key)[i] < now - self.duration)
                ==> !self.purge(now).hits.contains_key(key),
    {
        lemma_entries_from(self.log(key), now - self.duration);
    }

    /// What a reclamation pass at `now` leaves lies within the window that
    /// ends at `now`, and a second pass at `now` changes nothing.
    pub proof fn lemma_purge_leaves_window(self, now: nat)
        ensures
            forall|k: Seq<char>, i: int|
                self.purge(now).hits.contains_key(k) && 0 <= i < self.purge(now).hits[k].len()
                    ==> #[trigger] self.purge(now).hits[k][i] >= now - self.duration,
            self.purge(now).purge(now) == self.purge(now),
    {
        let left = self.purge(now);
        assert forall|k: Seq<char>, i: int|
            left.hits.contains_key(k) && 0 <= i < left.hits[k].len() implies #[trigger] left.hits[k][i]
            >= now - self.duration by {
            lemma_entries_from(self.hits[k], now - self.duration);
        }
        assert forall|k: Seq<char>| #[trigger] left.hits.contains_key(k) implies entries_from(
            left.hits[k],
            now - self.duration,
        ) == left.hits[k] && left.hits[k].len() > 0 by {
            lemma_entries_from(left.hits[k], now - self.duration);
        }
        assert(left.purge(now).hits =~= left.hits);
    }

    /// Calls and reclamation passes keep every log ascending and not
    /// empty.
    pub proof fn lemma_steps_keep_wf(self, key: Seq<char>, now: nat)
        requires
            self.wf(),
        ensures
            self.consume(key, now).wf(),
            self.purge(now).wf(),
    {
        lemma_with_entry_holds(self.log(key), now as u64);
        assert forall|k: Seq<char>| #[trigger] self.purge(now).hits.contains_key(k) implies ascending(
            self.purge(now).hits[k],
        ) by {
            lemma_entries_from_tail(self.hits[k], now - self.duration);
        }
    }
}

/// The minute into which second `when` falls.
pub fn nearest_minute(when: u64) -> (minute: u64)
    ensures
        minute == when / 60,
        60 * minute <= when < 60 * minute + 60,
{
    when / 60
}

/// The load that `prev` hits of the previous minute and `cur` hits since
/// then amount to when the current minute has run for `second` seconds.
pub fn load_of(prev: usize, cur: usize, second: u64, duration: u32) -> (load: usize)
    requires
        prev + cur <= usize::MAX,
    ensures
        load == weighted_load(prev as nat, cur as nat, second as nat, duration as nat),
{
    if duration == 0 {
        return 0;
    }
    proof {
        lemma_load_between(prev as nat, cur as nat, second as nat, duration as nat);
    }
    let d: u128 = duration as u128;
    let s: u128 = second as u128;
    let p: u128 = prev as u128;
    let c: u128 = cur as u128;
    assert(c * d <= 0xffff_ffff_ffff_ffff * 0xffff_ffff) by (nonlinear_arith)
        requires
            c <= 0xffff_ffff_ffff_ffff,
            d <= 0xffff_ffff,
    ;
    let since: u128 = c * d;
    if s <= d {
        assert(p * (d - s) <= 0xffff_ffff_ffff_ffff * 0xffff_ffff) by (nonlinear_arith)
            requires
                p <= 0xffff_ffff_ffff_ffff,
                s <= d <= 0xffff_ffff,
        ;
        let scaled: u128 = p * (d - s) + since;
        if scaled == 0 {
            0
        } else {
            (scaled / d) as usize
        }
    } else {
        assert(p * (s - d) <= 0xffff_ffff_ffff_ffff * 0xffff_ffff_ffff_ffff) by (nonlinear_arith)
            requires
                p <= 0xffff_ffff_ffff_ffff,
                d < s <= 0xffff_ffff_ffff_ffff,
        ;
        let owed: u128 = p * (s - d);
        assert(p * (d - s) == -(p * (s - d))) by (nonlinear_arith);
        if since > owed {
            ((since - owed) / d) as usize
        } else {
            0
        }
    }
}

/// One key's record: the seconds at which it was admitted, in ascending
/// order.
pub struct Entry {
    pub hits: Vec<u64>,
}

impl View for Entry {
    type V = Seq<u64>;

    open spec fn view(&self) -> Seq<u64> {
        self.hits@
    }
}

/// A limiter that approximates a sliding window of `duration` seconds.
pub struct Approximation {
    duration: u32,
    threshold: usize,
    inner: Table<Entry>,
}

impl View for Approximation {
    type V = ApproximationModel;

    closed spec fn view(&self) -> ApproximationModel {
        ApproximationModel {
            duration: self.duration as nat,
            threshold: self.threshold as nat,
            hits: Map::new(
                |k: Seq<char>| self.inner@.contains_key(k),
                |k: Seq<char>| self.inner@[k]@,
            ),
        }
    }
}

/// The hits of `log` in the minute in which the window that ends at `now`
/// begins, and the hits after that minute.
pub fn tally(log: &Vec<u64>, now: u64, duration: u32) -> (counts: (usize, usize))
    ensures
        counts.0 == hits_in_previous(log@, now as int, duration as int),
        counts.1 == hits_after_previous(log@, now as int, duration as int),
        counts.0 + counts.1 <= log.len(),
{
    let ghost start = 60 * previous_minute(now as int, duration as int);
    if now < duration as u64 {
        proof {
            lemma_entries_from(log@, start);
            lemma_entries_from(log@, start + 60);
        }
        return (0, log.len());
    }
    let minute: u64 = nearest_minute(now - duration as u64);
    let mut prev: usize = 0;
    let mut cur: usize = 0;
    let mut i: usize = 0;
    while i < log.len()
        invariant
            i <= log.len(),
            start == 60 * minute,
            prev + cur <= i,
            prev + cur == count_from(log@.take(i as int), start),
            cur == count_from(log@.take(i as int), start + 60),
        decreases log.len() - i,
    {
        assert(log@.take(i + 1).drop_last() =~= log@.take(i as int));
        let at: u64 = nearest_minute(log[i]);
        if at == minute {
            prev = prev + 1;
        } else if at > minute {
            cur = cur + 1;
        }
        i = i + 1;
    }
    assert(log@.take(i as int) =~= log@);
    (prev, cur)
}

impl Approximation {
    /// A limiter that has seen no key.
    pub fn init(duration: u32, threshold: usize) -> (limiter: Approximation)
        ensures
            limiter.wf(),
            limiter@.duration == duration,
            limiter@.threshold == threshold,
            limiter@.hits == Map::<Seq<char>, Seq<u64>>::empty(),
    {
        let limiter = Approximation { duration, threshold, inner: Table::new() };
        assert(limiter@.hits =~= Map::<Seq<char>, Seq<u64>>::empty());
        limiter
    }

    /// A limiter that keeps its invariant has a state that keeps the
    /// model's.
    pub proof fn lemma_view_wf(&self)
        requires
            self.wf(),
        ensures
            self@.wf(),
    {
    }

    /// The length of the window in seconds.
    pub fn duration(&self) -> (duration: u32)
        ensures
            duration == self@.duration,
    {
        self.duration
    }

    /// The load below which calls are admitted.
    pub fn threshold(&self) -> (threshold: usize)
        ensures
            threshold == self@.threshold,
    {
        self.threshold
    }

    /// The approximate load of `key` at second `now`.
    pub fn load_at(&self, key: &str, now: u64) -> (load: usize)
        ensures
            load == self@.load(key@, now as nat),
    {
        let none: Vec<u64> = Vec::new();
        let log: &Vec<u64> = match self.inner.get(key) {
            Some(entry) => &entry.hits,
            None => &none,
        };
        assert(log@ == self@.log(key@));
        let (prev, cur): (usize, usize) = tally(log, now, self.duration);
        load_of(prev, cur, now % 60, self.duration)
    }

    /// Whether hits are recorded for `key`.
    pub fn holds(&self, key: &str) -> (held: bool)
        ensures
            held == self@.hits.contains_key(key@),
    {
        self.inner.get(key).is_some()
    }

    /// The number of keys for which hits are recorded.
    pub fn len(&self) -> (n: usize)
        requires
            self.wf(),
        ensures
            n == self@.hits.dom().len(),
    {
        assert(self@.hits.dom() =~= self.inner@.dom());
        self.inner.len()
    }

    /// Records one unit of consumption for `key` at second `now` of Unix
    /// time.
    ///
    /// The call is admitted exactly when the key's approximate load is
    /// below the threshold; the answer is what is left of the threshold
    /// after the load and this admission.
    pub fn consume_at(&mut self, key: &str, now: u64) -> (answer: Result<usize, Denied>)
        requires
            old(self).wf(),
        ensures
            final(self).wf(),
            final(self)@ == old(self)@.consume(key@, now as nat),
            answer == old(self)@.answer(key@, now as nat),
            answer matches Ok(left) ==> left < old(self)@.threshold,
            answer is Err ==> final(self)@ == old(self)@,
    {
        let none: Vec<u64> = Vec::new();
        let log: &Vec<u64> = match self.inner.get(key) {
            Some(entry) => &entry.hits,
            None => &none,
        };
        assert(log@ == self@.log(key@));
        let load: usize = self.load_at(key, now);
        if load >= self.threshold {
            return Err(Denied);
        }
        let grown: Vec<u64> = add_entry(log, now);
        proof {
            lemma_with_entry_holds(log@, now);
        }
        self.inner.put(key, Entry { hits: grown });
        assert(self@.hits =~= old(self)@.consume(key@, now as nat).hits);
        Ok(self.threshold - load - 1)
    }

    /// Takes out of every log the hits from before `now - duration` and
    /// drops the keys whose logs that empties. This strategy reports no
    /// wake time.
    pub fn rearm_at(&mut self, now: u64) -> (wake: Option<u128>)
        requires
            old(self).wf(),
        ensures
            final(self).wf(),
            Self::rearmed(old(self)@, now, final(self)@, wake),
    {
        if now < self.duration as u64 {
            proof {
                assert forall|k: Seq<char>| #[trigger] self@.hits.contains_key(k) implies count_from(
                    self@.hits[k],
                    now - self.duration,
                ) > 0 && entries_from(self@.hits[k], now - self.duration) == self@.hits[k] by {
                    lemma_entries_from(self@.hits[k], now - self.duration);
                }
                assert(self@.hits =~= self@.purge(now as nat).hits);
            }
            return None;
        }
        let from: u64 = now - self.duration as u64;
        let mut next: Table<Entry> = Table::new();
        let n: usize = self.inner.len();
        let mut i: usize = 0;
        while i < n
            invariant
                i <= n,
                n == self.inner.key_list().len(),
                self.inner.wf(),
                self@.wf(),
                next.wf(),
                forall|k: Seq<char>| #[trigger]
                    next@.contains_key(k) ==> {
                        &&& self.inner@.contains_key(k)
                        &&& next@[k]@ == entries_from(self.inner@[k]@, from as int)
                        &&& next@[k]@.len() > 0
                        &&& ascending(next@[k]@)
                    },
                forall|j: int|
                    0 <= j < i && count_from(
                        self.inner@[#[trigger] self.inner.key_list()[j]]@,
                        from as int,
                    ) > 0 ==> next@.contains_key(self.inner.key_list()[j]),
            decreases n - i,
        {
            let key: &str = self.inner.key(i);
            assert(self.inner@.contains_key(self.inner.key_list()[i as int]));
            let none: Vec<u64> = Vec::new();
            let log: &Vec<u64> = match self.inner.get(key) {
                Some(entry) => &entry.hits,
                None => &none,
            };
            assert(self@.hits.contains_key(key@) && log@ == self@.hits[key@]);
            let kept: Vec<u64> = keep_entries_from(log, from);
            if kept.len() > 0 {
                proof {
                    lemma_entries_from_tail(log@, from as int);
                }
                next.put(key, Entry { hits: kept });
            }
            i = i + 1;
        }
        proof {
            let keys = self.inner.key_list();
            assert forall|k: Seq<char>| self.inner@.contains_key(k) && count_from(
                self.inner@[k]@,
                from as int,
            ) > 0 implies next@.contains_key(k) by {
                let j = choose|j: int| 0 <= j < keys.len() && keys[j] == k;
                assert(count_from(self.inner@[keys[j]]@, from as int) > 0);
            }
        }
        self.inner = next;
        assert(self@.hits =~= old(self)@.purge(now as nat).hits);
        None
    }
}

/// A reading of the wall clock as seconds of Unix time; a reading from
/// before 1970 counts as second 0.
pub fn seconds_of(reading: i64) -> (seconds: u64)
    ensures
        seconds == if reading < 0 {
            0
        } else {
            reading
        },
{
    if reading < 0 {
        0
    } else {
        reading as u64
    }
}

impl Limiter for Approximation {
    closed spec fn wf(&self) -> bool {
        &&& self.inner.wf()
        &&& self@.wf()
    }

    open spec fn limit(&self) -> nat {
        self@.threshold
    }

    open spec fn budget(&self, key: Seq<char>, now: u64) -> nat {
        self@.available(key, now as nat)
    }

    /// What a call for `key` does when the clock reads `now`.
    open spec fn consumed(
        before: ApproximationModel,
        key: Seq<char>,
        now: u64,
        after: ApproximationModel,
        answer: Result<usize, Denied>,
    ) -> bool {
        after == before.consume(key, now as nat) && answer == before.answer(key, now as nat)
    }

    /// What a reclamation pass does when the clock reads `now`.
    open spec fn rearmed(
        before: ApproximationModel,
        now: u64,
        after: ApproximationModel,
        wake: Option<u128>,
    ) -> bool {
        after == before.purge(now as nat) && wake is None
    }

    /// Reads the wall clock and records one unit of consumption for `key`
    /// at that second.
    fn consume(&mut self, key: &str) -> (answer: Result<usize, Denied>) {
        let now: u64 = seconds_of(unix_seconds());
        let answer = self.consume_at(key, now);
        assert(Self::consumed(old(self)@, key@, now, self@, answer));
        answer
    }

    /// Reads the wall clock and takes out the hits that the window has
    /// left behind at that second.
    fn rearm(&mut self) -> (wake: Option<u128>) {
        let now: u64 = seconds_of(unix_seconds());
        let wake = self.rearm_at(now);
        assert(Self::rearmed(old(self)@, now, self@, wake));
        wake
    }
}

} // verus!
