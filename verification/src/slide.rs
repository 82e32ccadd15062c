//! Sliding window log: every admission of a key is recorded and counts
//! until it expires, `duration` seconds on. A key is admitted while its log
//! holds fewer than `threshold` records; only a reclamation pass takes
//! expired records out.

use crate::clock::{seconds_since, start};
use crate::limiter::{Denied, Limiter};
use crate::table::Table;
use crate::timeline::{
    add_entry, ascending, count_entries_from, count_from, entries_from, keep_entries_from,
    lemma_count_from_misses, lemma_entries_from, lemma_entries_from_tail, lemma_with_entry_count,
    lemma_with_entry_holds, with_entry,
};
use tokio::time::Instant;
use vstd::prelude::*;

verus! {

/// What a sliding-window limiter records: for each key the seconds of its
/// admissions, in ascending order. The record of second `t` expires at
/// second `t + duration`, its marker. Times are whole seconds of the
/// limiter's clock.
pub struct SlidingWindowModel {
    pub duration: nat,
    pub threshold: nat,
    pub logs: Map<Seq<char>, Seq<u64>>,
}

impl SlidingWindowModel {
    /// Every log is in ascending order, holds at least one record and no
    /// more than the threshold.
    pub open spec fn wf(self) -> bool {
        forall|k: Seq<char>| #[trigger]
            self.logs.contains_key(k) ==> {
                &&& ascending(self.logs[k])
                &&& 0 < self.logs[k].len() <= self.threshold
            }
    }

    /// The log of `key`, empty for a key that has none.
    pub open spec fn log(self, key: Seq<char>) -> Seq<u64> {
        if self.logs.contains_key(key) {
            self.logs[key]
        } else {
            Seq::empty()
        }
    }

    /// The second at which the record of second `t` expires.
    pub open spec fn marker(self, t: u64) -> nat {
        (t + self.duration) as nat
    }

    /// The first second whose records have not expired at `now`: a record
    /// of second `t` expires after `now` exactly when `t` is this second or
    /// later.
    pub open spec fn live_from(self, now: nat) -> int {
        now + 1 - self.duration
    }

    /// The records of `key` that have not expired at `now`, whether or not
    /// a pass has taken the others out.
    pub open spec fn live(self, key: Seq<char>, now: nat) -> nat {
        count_from(self.log(key), self.live_from(now))
    }

    /// The admissions that `key` can still get: the threshold less the
    /// records held.
    pub open spec fn available(self, key: Seq<char>) -> nat {
        if self.log(key).len() < self.threshold {
            (self.threshold - self.log(key).len()) as nat
        } else {
            0
        }
    }

    /// Whether a call for `key` is admitted: its log holds fewer records
    /// than the threshold, expired or not.
    pub open spec fn admits(self, key: Seq<char>) -> bool {
        self.log(key).len() < self.threshold
    }

    /// The answer to a call for `key`: the threshold less the records held
    /// after it, or a denial.
    pub open spec fn answer(self, key: Seq<char>) -> Result<usize, Denied> {
        if self.admits(key) {
            Ok((self.threshold - self.log(key).len() - 1) as usize)
        } else {
            Err(Denied)
        }
    }

    /// The state after a call for `key` at `now`. A denied call changes
    /// nothing; an admitted call adds the record of `now`, which expires at
    /// `now + duration`. Nothing that has expired is taken out here.
    pub open spec fn consume(self, key: Seq<char>, now: nat) -> SlidingWindowModel {
        if self.admits(key) {
            SlidingWindowModel {
                duration: self.duration,
                threshold: self.threshold,
                logs: self.logs.insert(key, with_entry(self.log(key), now as u64)),
            }
        } else {
            self
        }
    }

    /// The state after a reclamation pass at `now`: each log without the
    /// records that have expired, and no key whose log that empties.
    pub open spec fn purge(self, now: nat) -> SlidingWindowModel {
        SlidingWindowModel {
            duration: self.duration,
            threshold: self.threshold,
            logs: Map::new(
                |k: Seq<char>|
                    self.logs.contains_key(k) && count_from(self.logs[k], self.live_from(now)) > 0,
                |k: Seq<char>| entries_from(self.logs[k], self.live_from(now)),
            ),
        }
    }

    /// Whether `t` is the earliest marker of any record.
    pub open spec fn earliest_expiry(self, t: nat) -> bool {
        &&& exists|k: Seq<char>, i: int|
            self.logs.contains_key(k) && 0 <= i < self.logs[k].len() && self.marker(
                #[trigger] self.logs[k][i],
            ) == t
        &&& forall|k: Seq<char>, i: int|
            self.logs.contains_key(k) && 0 <= i < self.logs[k].len() ==> self.marker(
                #[trigger] self.logs[k][i],
            ) >= t
    }
}

impl SlidingWindowModel {
    /// The state after one call for `key` at each of `times`, in order.
    pub open spec fn consume_all(self, key: Seq<char>, times: Seq<nat>) -> SlidingWindowModel
        decreases times.len(),
    {
        if times.len() == 0 {
            self
        } else {
            self.consume_all(key, times.drop_last()).consume(key, times.last())
        }
    }

    /// When a key that is new is called at `times`, its log takes one
    /// record per call up to the threshold, and once a call is admitted it
    /// holds the record of the first.
    pub proof fn lemma_log_after(self, key: Seq<char>, times: Seq<nat>)
        requires
            !self.logs.contains_key(key),
            forall|j: int| 0 <= j < times.len() ==> #[trigger] times[j] <= u64::MAX,
        ensures
            self.consume_all(key, times).duration == self.duration,
            self.consume_all(key, times).threshold == self.threshold,
            ascending(self.consume_all(key, times).log(key)),
            self.consume_all(key, times).log(key).len() == if times.len() <= self.threshold {
                times.len()
            } else {
                self.threshold
            },
            times.len() >= 1 && self.threshold >= 1 ==> self.consume_all(key, times).log(
                key,
            ).contains(times[0] as u64),
        decreases times.len(),
    {
        if times.len() > 0 {
            let earlier = times.drop_last();
            let now = times.last();
            assert(now == times[times.len() - 1]);
            assert forall|j: int| 0 <= j < earlier.len() implies #[trigger] earlier[j]
                <= u64::MAX by {
                assert(earlier[j] == times[j]);
            }
            self.lemma_log_after(key, earlier);
            let before = self.consume_all(key, earlier);
            let log = before.log(key);
            lemma_with_entry_holds(log, now as u64);
            if before.admits(key) {
                let grown = with_entry(log, now as u64);
                assert(self.consume_all(key, times).log(key) == grown);
                if earlier.len() >= 1 {
                    assert(earlier[0] == times[0]);
                    let j = choose|j: int| 0 <= j < log.len() && log[j] == times[0] as u64;
                    assert(grown.contains(log[j]));
                }
            } else {
                if earlier.len() >= 1 {
                    assert(earlier[0] == times[0]);
                }
            }
        }
    }

    /// With threshold `T`, the calls for a key that is new are admitted
    /// while they are among the first `T`, call `i` (from 0) leaving
    /// `T - 1 - i`, and denied after that, whenever they come. Once the
    /// first admission has expired and a pass has run, a call is admitted
    /// again.
    pub proof fn lemma_threshold_per_window(
        self,
        key: Seq<char>,
        times: Seq<nat>,
        i: int,
        later: nat,
    )
        requires
            !self.logs.contains_key(key),
            forall|j: int| 0 <= j < times.len() ==> #[trigger] times[j] <= u64::MAX,
            0 <= i < times.len(),
            later >= times[0] + self.duration,
        ensures
            i < self.threshold ==> self.consume_all(key, times.take(i)).answer(key) == Ok::<
                usize,
                Denied,
            >((self.threshold - 1 - i) as usize),
            i >= self.threshold ==> self.consume_all(key, times.take(i)).answer(key) == Err::<
                usize,
                Denied,
            >(Denied),
            self.threshold >= 1 ==> self.consume_all(key, times).purge(later).answer(key) is Ok,
    {
        let earlier = times.take(i);
        assert forall|j: int| 0 <= j < earlier.len() implies #[trigger] earlier[j] <= u64::MAX by {
            assert(earlier[j] == times[j]);
        }
        self.lemma_log_after(key, earlier);
        if self.threshold >= 1 {
            self.lemma_log_after(key, times);
            let after = self.consume_all(key, times);
            let log = after.log(key);
            lemma_count_from_misses(log, after.live_from(later), times[0] as u64);
        }
    }

    /// As long as the calls for a key that is new come in the order of the
    /// clock and are no more than the threshold, the log holds the second
    /// of each, in that order: the markers are those seconds plus
    /// `duration`.
    pub proof fn lemma_log_in_order(self, key: Seq<char>, times: Seq<nat>)
        requires
            !self.logs.contains_key(key),
            times.len() <= self.threshold,
            forall|j: int| 0 <= j < times.len() ==> #[trigger] times[j] <= u64::MAX,
            forall|j: int, k: int| 0 <= j <= k < times.len() ==> times[j] <= times[k],
        ensures
            self.consume_all(key, times).log(key) == times.map_values(|t: nat| t as u64),
        decreases times.len(),
    {
        let seconds = times.map_values(|t: nat| t as u64);
        if times.len() == 0 {
            assert(self.consume_all(key, times).log(key) =~= seconds);
        } else {
            let earlier = times.drop_last();
            let now = times.last();
            assert(now == times[times.len() - 1]);
            assert forall|j: int| 0 <= j < earlier.len() implies #[trigger] earlier[j]
                <= u64::MAX by {
                assert(earlier[j] == times[j]);
            }
            assert forall|j: int, k: int| 0 <= j <= k < earlier.len() implies earlier[j]
                <= earlier[k] by {
                assert(earlier[j] == times[j] && earlier[k] == times[k]);
            }
            self.lemma_log_in_order(key, earlier);
            self.lemma_log_after(key, earlier);
            let log = self.consume_all(key, earlier).log(key);
            assert forall|j: int| 0 <= j < log.len() implies #[trigger] log[j] < now as u64
                + 1 by {
                assert(log[j] == earlier[j] as u64);
                assert(earlier[j] == times[j]);
            }
            lemma_entries_from(log, now as u64 + 1);
            assert(with_entry(log, now as u64) =~= log.push(now as u64));
            assert(log.push(now as u64) =~= seconds);
        }
    }

    /// An admitted call uses up one admission: what the answer reports is
    /// what the key can still get after the call.
    pub proof fn lemma_admission_takes_one(self, key: Seq<char>, now: nat)
        requires
            self.wf(),
            self.admits(key),
        ensures
            self.consume(key, now).log(key).len() == self.log(key).len() + 1,
            self.consume(key, now).available(key) == self.available(key) - 1,
            self.answer(key) == Ok::<usize, Denied>(self.consume(key, now).available(key) as usize),
    {
        lemma_with_entry_holds(self.log(key), now as u64);
    }

    /// The record of an admitted call has not expired at the second of the
    /// call, where records count for a second at least.
    pub proof fn lemma_admission_is_live(self, key: Seq<char>, now: nat)
        requires
            self.wf(),
            self.admits(key),
            self.duration >= 1,
            now <= u64::MAX,
        ensures
            self.consume(key, now).live(key, now) == self.live(key, now) + 1,
    {
        lemma_with_entry_count(self.log(key), now as u64, self.live_from(now));
    }

    /// A call for one key leaves every other key's log as it was.
    pub proof fn lemma_other_keys_untouched(self, key: Seq<char>, now: nat, other: Seq<char>)
        requires
            other != key,
        ensures
            self.consume(key, now).logs.contains_key(other) == self.logs.contains_key(other),
            self.consume(key, now).log(other) == self.log(other),
            self.consume(key, now).available(other) == self.available(other),
    {
    }

    /// A reclamation pass at `now` drops the key whose records have all
    /// expired by then, and leaves each key the records that have not.
    pub proof fn lemma_purge_drops_expired(self, key: Seq<char>, now: nat)
        ensures
            (forall|i: int|
                0 <= i < self.log(key).len() ==> self.marker(#[trigger] self.log(key)[i]) <= now)
                ==> !self.purge(now).logs.contains_key(key),
            self.purge(now).log(key).len() == self.live(key, now),
            self.purge(now).live(key, now) == self.live(key, now),
    {
        let log = self.log(key);
        let from = self.live_from(now);
        lemma_entries_from(log, from);
        let kept = entries_from(log, from);
        lemma_entries_from(kept, from);
        lemma_entries_from(Seq::<u64>::empty(), from);
        if forall|i: int| 0 <= i < log.len() ==> self.marker(#[trigger] log[i]) <= now {
            assert forall|i: int| 0 <= i < log.len() implies #[trigger] log[i] < from by {
                assert(self.marker(log[i]) <= now);
            }
        }
    }

    /// A call that follows a pass at the same second is answered by the
    /// records that had not expired: it is admitted exactly when they are
    /// fewer than the threshold, and its record joins them.
    pub proof fn lemma_call_after_pass(self, key: Seq<char>, now: nat)
        ensures
            self.purge(now).answer(key) == if self.live(key, now) < self.threshold {
                Ok::<usize, Denied>((self.threshold - self.live(key, now) - 1) as usize)
            } else {
                Err::<usize, Denied>(Denied)
            },
            self.live(key, now) < self.threshold ==> self.purge(now).consume(key, now).log(key)
                == with_entry(entries_from(self.log(key), self.live_from(now)), now as u64),
    {
        self.lemma_purge_drops_expired(key, now);
        let from = self.live_from(now);
        lemma_entries_from(self.log(key), from);
        lemma_entries_from(Seq::<u64>::empty(), from);
        assert(self.purge(now).log(key) =~= entries_from(self.log(key), from));
    }

    /// What a reclamation pass at `now` leaves has not expired at `now`, so
    /// the earliest marker that it reports lies after `now`.
    pub proof fn lemma_wake_is_later(self, now: nat, wake: nat)
        requires
            self.purge(now).earliest_expiry(wake),
        ensures
            wake > now,
            forall|k: Seq<char>, i: int|
                self.purge(now).logs.contains_key(k) && 0 <= i < self.purge(now).logs[k].len()
                    ==> self.marker(#[trigger] self.purge(now).logs[k][i]) > now,
    {
        let left = self.purge(now);
        assert forall|k: Seq<char>, i: int|
            left.logs.contains_key(k) && 0 <= i < left.logs[k].len() implies self.marker(
            #[trigger] left.logs[k][i],
        ) > now by {
            lemma_entries_from(self.logs[k], self.live_from(now));
        }
        let (k, i) = choose|k: Seq<char>, i: int|
            left.logs.contains_key(k) && 0 <= i < left.logs[k].len() && left.marker(
                #[trigger] left.logs[k][i],
            ) == wake;
        assert(self.marker(left.logs[k][i]) > now);
    }

    /// Until the earliest marker comes, a reclamation pass changes nothing.
    pub proof fn lemma_nothing_to_purge_before_wake(self, wake: nat, next: nat)
        requires
            self.wf(),
            self.earliest_expiry(wake),
            next < wake,
        ensures
            self.purge(next) == self,
    {
        assert forall|k: Seq<char>| #[trigger] self.logs.contains_key(k) implies entries_from(
            self.logs[k],
            self.live_from(next),
        ) == self.logs[k] by {
            assert forall|i: int| 0 <= i < self.logs[k].len() implies #[trigger] self.logs[k][i]
                >= self.live_from(next) by {
                assert(self.marker(self.logs[k][i]) >= wake);
            }
            lemma_entries_from(self.logs[k], self.live_from(next));
        }
        assert(self.purge(next).logs =~= self.logs);
    }

    /// Calls and reclamation passes keep every log ascending, not empty
    /// and within the threshold.
    pub proof fn lemma_steps_keep_wf(self, key: Seq<char>, now: nat)
        requires
            self.wf(),
        ensures
            self.consume(key, now).wf(),
            self.purge(now).wf(),
    {
        lemma_with_entry_holds(self.log(key), now as u64);
        assert forall|k: Seq<char>| #[trigger] self.purge(now).logs.contains_key(k) implies {
            &&& ascending(self.purge(now).logs[k])
            &&& self.purge(now).logs[k].len() <= self.threshold
        } by {
            lemma_entries_from_tail(self.logs[k], self.live_from(now));
        }
    }
}

/// A sliding-window limiter.
pub struct SlidingWindow {
    duration: u64,
    threshold: usize,
    inner: Table<Vec<u64>>,
    origin: Instant,
}

impl View for SlidingWindow {
    type V = SlidingWindowModel;

    closed spec fn view(&self) -> SlidingWindowModel {
        SlidingWindowModel {
            duration: self.duration as nat,
            threshold: self.threshold as nat,
            logs: Map::new(
                |k: Seq<char>| self.inner@.contains_key(k),
                |k: Seq<char>| self.inner@[k]@,
            ),
        }
    }
}

/// The first second whose records have not expired at `now`, where it is
/// a second of the clock: 0 while every record is live, and nothing where
/// none can be.
pub fn first_live(now: u64, duration: u64) -> (from: Option<u64>)
    ensures
        match from {
            Some(second) => if now + 1 - duration <= 0 {
                second == 0
            } else {
                second == now + 1 - duration
            },
            None => now + 1 - duration > u64::MAX,
        },
{
    if now < duration {
        Some(0)
    } else if now - duration == u64::MAX {
        None
    } else {
        Some(now - duration + 1)
    }
}

/// The records of `log` that have not expired at `now`.
pub fn live_records(log: &Vec<u64>, now: u64, duration: u64) -> (kept: Vec<u64>)
    ensures
        kept@ == entries_from(log@, now + 1 - duration),
{
    proof {
        lemma_entries_from(log@, now + 1 - duration);
        lemma_entries_from(log@, 0);
    }
    match first_live(now, duration) {
        Some(from) => keep_entries_from(log, from),
        None => {
            let kept: Vec<u64> = Vec::new();
            assert(kept@ =~= entries_from(log@, now + 1 - duration));
            kept
        },
    }
}

impl SlidingWindow {
    /// A limiter that has seen no key; its clock starts now.
    pub fn init(duration: u64, threshold: usize) -> (limiter: SlidingWindow)
        ensures
            limiter.wf(),
            limiter@.duration == duration,
            limiter@.threshold == threshold,
            limiter@.logs == Map::<Seq<char>, Seq<u64>>::empty(),
    {
        let limiter = SlidingWindow { duration, threshold, inner: Table::new(), origin: start() };
        assert(limiter@.logs =~= Map::<Seq<char>, Seq<u64>>::empty());
        limiter
    }

    /// A limiter that keeps its invariant has a state that keeps the
    /// model's.
    pub proof fn lemma_view_wf(&self)
        requires
            self.wf(),
        ensures
            self@.wf(),
    {
    }

    /// The seconds for which an admission counts.
    pub fn duration(&self) -> (duration: u64)
        ensures
            duration == self@.duration,
    {
        self.duration
    }

    /// The records that a key's log may hold.
    pub fn threshold(&self) -> (threshold: usize)
        ensures
            threshold == self@.threshold,
    {
        self.threshold
    }

    /// The reading of the monotonic clock that this limiter took when it
    /// was made.
    pub closed spec fn clock_origin(&self) -> Instant {
        self.origin
    }

    /// The reading of the monotonic clock from which this limiter counts
    /// its seconds.
    pub fn origin(&self) -> (origin: Instant)
        ensures
            origin == self.clock_origin(),
    {
        self.origin
    }

    /// The records that the log of `key` holds, expired or not.
    pub fn held(&self, key: &str) -> (held: usize)
        ensures
            held == self@.log(key@).len(),
    {
        match self.inner.get(key) {
            Some(log) => log.len(),
            None => 0,
        }
    }

    /// The records of `key` that have not expired at second `now`.
    pub fn live_at(&self, key: &str, now: u64) -> (live: usize)
        ensures
            live == self@.live(key@, now as nat),
    {
        match self.inner.get(key) {
            Some(log) => {
                assert(log@ == self@.log(key@));
                proof {
                    lemma_entries_from(log@, now + 1 - self.duration);
                    lemma_entries_from(log@, 0);
                }
                match first_live(now, self.duration) {
                    Some(from) => count_entries_from(log, from),
                    None => 0,
                }
            },
            None => {
                assert(self@.log(key@) =~= Seq::<u64>::empty());
                0
            },
        }
    }

    /// Whether a log is recorded for `key`.
    pub fn holds(&self, key: &str) -> (held: bool)
        ensures
            held == self@.logs.contains_key(key@),
    {
        self.inner.get(key).is_some()
    }

    /// The number of keys for which a log is recorded.
    pub fn len(&self) -> (n: usize)
        requires
            self.wf(),
        ensures
            n == self@.logs.dom().len(),
    {
        assert(self@.logs.dom() =~= self.inner@.dom());
        self.inner.len()
    }

    /// Records one unit of consumption for `key` at second `now`.
    ///
    /// The call is admitted exactly when the key's log holds fewer than
    /// `threshold` records, expired or not; the answer is the threshold
    /// less the records held after the call. The second decides only what
    /// is recorded.
    pub fn consume_at(&mut self, key: &str, now: u64) -> (answer: Result<usize, Denied>)
        requires
            old(self).wf(),
        ensures
            final(self).wf(),
            final(self)@ == old(self)@.consume(key@, now as nat),
            answer == old(self)@.answer(key@),
            answer matches Ok(left) ==> left < old(self)@.threshold,
            answer is Ok ==> final(self)@.log(key@).len() == old(self)@.log(key@).len() + 1,
            answer is Err ==> final(self)@ == old(self)@,
            final(self).clock_origin() == old(self).clock_origin(),
    {
        let none: Vec<u64> = Vec::new();
        let log: &Vec<u64> = match self.inner.get(key) {
            Some(log) => log,
            None => &none,
        };
        assert(log@ == self@.log(key@));
        let held: usize = log.len();
        if held >= self.threshold {
            return Err(Denied);
        }
        let grown: Vec<u64> = add_entry(log, now);
        proof {
            lemma_with_entry_holds(log@, now);
        }
        self.inner.put(key, grown);
        assert(self@.logs =~= old(self)@.consume(key@, now as nat).logs);
        Ok(self.threshold - held - 1)
    }

    /// Takes out of every log the records that have expired at second
    /// `now`, drops the keys whose logs that empties, and reports the
    /// earliest marker that is left, if any is.
    pub fn rearm_at(&mut self, now: u64) -> (wake: Option<u128>)
        requires
            old(self).wf(),
        ensures
            final(self).wf(),
            Self::rearmed(old(self)@, now, final(self)@, wake),
            final(self).clock_origin() == old(self).clock_origin(),
    {
        let mut next: Table<Vec<u64>> = Table::new();
        let mut wake: Option<u128> = None;
        let n: usize = self.inner.len();
        let mut i: usize = 0;
        let ghost from = self@.live_from(now as nat);
        while i < n
            invariant
                i <= n,
                n == self.inner.key_list().len(),
                from == now + 1 - self.duration,
                self.inner.wf(),
                self@.wf(),
                next.wf(),
                forall|k: Seq<char>| #[trigger]
                    next@.contains_key(k) ==> {
                        &&& self.inner@.contains_key(k)
                        &&& next@[k]@ == entries_from(self.inner@[k]@, from)
                        &&& 0 < next@[k]@.len() <= self.threshold
                        &&& ascending(next@[k]@)
                    },
                forall|k: Seq<char>| #[trigger]
                    next@.contains_key(k) ==> exists|j: int|
                        0 <= j < i && self.inner.key_list()[j] == k,
                forall|j: int|
                    0 <= j < i && count_from(
                        self.inner@[#[trigger] self.inner.key_list()[j]]@,
                        from,
                    ) > 0 ==> next@.contains_key(self.inner.key_list()[j]),
                match wake {
                    Some(t) => {
                        &&& exists|k: Seq<char>, j: int|
                            next@.contains_key(k) && 0 <= j < next@[k]@.len() && (
                            #[trigger] next@[k]@[j]) + self.duration == t
                        &&& forall|k: Seq<char>, j: int|
                            next@.contains_key(k) && 0 <= j < next@[k]@.len() ==> (
                            #[trigger] next@[k]@[j]) + self.duration >= t
                    },
                    None => forall|k: Seq<char>| !#[trigger] next@.contains_key(k),
                },
            decreases n - i,
        {
            let key: &str = self.inner.key(i);
            assert(self.inner@.contains_key(self.inner.key_list()[i as int]));
            let none: Vec<u64> = Vec::new();
            let log: &Vec<u64> = match self.inner.get(key) {
                Some(log) => log,
                None => &none,
            };
            assert(self@.logs.contains_key(key@) && log@ == self@.logs[key@]);
            let kept: Vec<u64> = live_records(log, now, self.duration);
            if kept.len() > 0 {
                let first: u128 = kept[0] as u128 + self.duration as u128;
                let ghost before = next@;
                proof {
                    lemma_entries_from_tail(log@, from);
                    if before.contains_key(key@) {
                        let j = choose|j: int| 0 <= j < i && self.inner.key_list()[j] == key@;
                        assert(self.inner.key_list()[j] == self.inner.key_list()[i as int]);
                    }
                }
                next.put(key, kept);
                assert(next@.contains_key(key@) && next@[key@]@[0] + self.duration == first);
                wake = match wake {
                    Some(t) => if first < t {
                        Some(first)
                    } else {
                        proof {
                            let (k, j) = choose|k: Seq<char>, j: int|
                                before.contains_key(k) && 0 <= j < before[k]@.len() && (
                                #[trigger] before[k]@[j]) + self.duration == t;
                            assert(next@.contains_key(k) && next@[k]@[j] + self.duration == t);
                        }
                        Some(t)
                    },
                    None => Some(first),
                };
            }
            i = i + 1;
        }
        proof {
            let keys = self.inner.key_list();
            assert forall|k: Seq<char>| self.inner@.contains_key(k) && count_from(
                self.inner@[k]@,
                from,
            ) > 0 implies next@.contains_key(k) by {
                let j = choose|j: int| 0 <= j < keys.len() && keys[j] == k;
                assert(count_from(self.inner@[keys[j]]@, from) > 0);
            }
        }
        self.inner = next;
        proof {
            assert(self@.logs =~= old(self)@.purge(now as nat).logs);
            match wake {
                Some(t) => {
                    let (k, j) = choose|k: Seq<char>, j: int|
                        next@.contains_key(k) && 0 <= j < next@[k]@.len() && (
                        #[trigger] next@[k]@[j]) + self.duration == t;
                    assert(self@.logs.contains_key(k) && self@.marker(self@.logs[k][j]) == t);
                },
                None => {
                    assert(self@.logs =~= Map::<Seq<char>, Seq<u64>>::empty());
                },
            }
        }
        wake
    }
}

impl Limiter for SlidingWindow {
    closed spec fn wf(&self) -> bool {
        &&& self.inner.wf()
        &&& self@.wf()
    }

    open spec fn limit(&self) -> nat {
        self@.threshold
    }

    open spec fn budget(&self, key: Seq<char>, now: u64) -> nat {
        self@.available(key)
    }

    /// What a call for `key` does when the clock reads `now`.
    open spec fn consumed(
        before: SlidingWindowModel,
        key: Seq<char>,
        now: u64,
        after: SlidingWindowModel,
        answer: Result<usize, Denied>,
    ) -> bool {
        after == before.consume(key, now as nat) && answer == before.answer(key)
    }

    /// What a reclamation pass does when the clock reads `now`.
    open spec fn rearmed(
        before: SlidingWindowModel,
        now: u64,
        after: SlidingWindowModel,
        wake: Option<u128>,
    ) -> bool {
        &&& after == before.purge(now as nat)
        &&& match wake {
            Some(t) => after.earliest_expiry(t as nat),
            None => after.logs == Map::<Seq<char>, Seq<u64>>::empty(),
        }
    }

    /// Reads the clock and records one unit of consumption for `key` at
    /// that second.
    ///
    /// The answer does not depend on the clock: the call is admitted
    /// exactly when the key's log holds fewer records than the threshold.
    /// The clock decides only the second that is recorded.
    fn consume(&mut self, key: &str) -> (answer: Result<usize, Denied>)
        ensures
            answer == old(self)@.answer(key@),
            answer is Ok ==> final(self)@.log(key@).len() == old(self)@.log(key@).len() + 1,
            final(self).clock_origin() == old(self).clock_origin(),
    {
        let now: u64 = seconds_since(&self.origin);
        let answer = self.consume_at(key, now);
        assert(Self::consumed(old(self)@, key@, now, self@, answer));
        answer
    }

    /// Reads the clock and takes out what has expired at that second.
    fn rearm(&mut self) -> (wake: Option<u128>)
        ensures
            final(self).clock_origin() == old(self).clock_origin(),
    {
        let now: u64 = seconds_since(&self.origin);
        let wake = self.rearm_at(now);
        assert(Self::rearmed(old(self)@, now, self@, wake));
        wake
    }
}

} // verus!
