//! Fixed window: the first admission of a key opens a window of `duration`
//! seconds that allows `threshold` admissions; once the window has expired
//! the next admission opens a new one.

use crate::clock::{seconds_since, start};
use crate::limiter::{Denied, Limiter};
use crate::table::Table;
use tokio::time::Instant;
use vstd::prelude::*;

verus! {

/// One key's window: the second at which it expires and the admissions it
/// still allows.
pub struct Window {
    pub expiry: nat,
    pub remaining: nat,
}

/// What a fixed-window limiter records: one window for each key that has
/// been admitted. Times are whole seconds of the limiter's clock.
pub struct FixedWindowModel {
    pub duration: nat,
    pub threshold: nat,
    pub windows: Map<Seq<char>, Window>,
}

impl FixedWindowModel {
    /// Every window allows fewer admissions than the threshold: the one
    /// that opened it is already counted.
    pub open spec fn wf(self) -> bool {
        forall|k: Seq<char>| #[trigger]
            self.windows.contains_key(k) ==> self.windows[k].remaining < self.threshold
    }

    /// Whether `key` has a window that has not expired at `now`.
    pub open spec fn is_open(self, key: Seq<char>, now: nat) -> bool {
        self.windows.contains_key(key) && self.windows[key].expiry > now
    }

    /// The admissions that `key` can still get at `now`: what its open
    /// window allows, or a whole threshold where it has none.
    pub open spec fn available(self, key: Seq<char>, now: nat) -> nat {
        if self.is_open(key, now) {
            self.windows[key].remaining
        } else {
            self.threshold
        }
    }

    /// Whether a call for `key` at `now` is admitted.
    pub open spec fn admits(self, key: Seq<char>, now: nat) -> bool {
        self.available(key, now) > 0
    }

    /// The answer to a call for `key` at `now`: the admissions left after
    /// it, or a denial.
    pub open spec fn answer(self, key: Seq<char>, now: nat) -> Result<usize, Denied> {
        if self.admits(key, now) {
            Ok((self.available(key, now) - 1) as usize)
        } else {
            Err(Denied)
        }
    }

    /// The answer to the call of a key that has no window, whatever the
    /// second: a threshold less one, or a denial where the threshold is 0.
    pub open spec fn first_answer(self) -> Result<usize, Denied> {
        if self.threshold >= 1 {
            Ok((self.threshold - 1) as usize)
        } else {
            Err(Denied)
        }
    }

    /// The state after a call for `key` at `now`. A denied call changes
    /// nothing. An admitted call takes one admission from the open window,
    /// or opens a window that expires at `now + duration` and takes the
    /// first admission from it.
    pub open spec fn consume(self, key: Seq<char>, now: nat) -> FixedWindowModel {
        if !self.admits(key, now) {
            self
        } else {
            let expiry = if self.is_open(key, now) {
                self.windows[key].expiry
            } else {
                now + self.duration
            };
            let window = Window { expiry, remaining: (self.available(key, now) - 1) as nat };
            FixedWindowModel {
                duration: self.duration,
                threshold: self.threshold,
                windows: self.windows.insert(key, window),
            }
        }
    }

    /// The state after a reclamation pass at `now`: the windows that have
    /// not expired.
    pub open spec fn purge(self, now: nat) -> FixedWindowModel {
        FixedWindowModel {
            duration: self.duration,
            threshold: self.threshold,
            windows: Map::new(|k: Seq<char>| self.is_open(k, now), |k: Seq<char>| self.windows[k]),
        }
    }

    /// Whether `t` is the earliest expiry among the windows.
    pub open spec fn earliest_expiry(self, t: nat) -> bool {
        &&& exists|k: Seq<char>| #[trigger]
            self.windows.contains_key(k) && self.windows[k].expiry == t
        &&& forall|k: Seq<char>| #[trigger]
            self.windows.contains_key(k) ==> self.windows[k].expiry >= t
    }
}

impl FixedWindowModel {
    /// The state after one call for `key` at each of `times`, in order.
    pub open spec fn consume_all(self, key: Seq<char>, times: Seq<nat>) -> FixedWindowModel
        decreases times.len(),
    {
        if times.len() == 0 {
            self
        } else {
            self.consume_all(key, times.drop_last()).consume(key, times.last())
        }
    }

    /// Once the first of `times` has opened a window for `key`, calls that
    /// come before the window expires draw on it: after `n` of them it
    /// allows `threshold - n` more, and none once `n` has passed the
    /// threshold.
    pub proof fn lemma_window_after(self, key: Seq<char>, times: Seq<nat>)
        requires
            self.threshold >= 1,
            times.len() >= 1,
            !self.is_open(key, times[0]),
            forall|j: int| 0 <= j < times.len() ==> #[trigger] times[j] < times[0] + self.duration,
        ensures
            self.consume_all(key, times).duration == self.duration,
            self.consume_all(key, times).threshold == self.threshold,
            self.consume_all(key, times).windows.contains_key(key),
            self.consume_all(key, times).windows[key].expiry == times[0] + self.duration,
            self.consume_all(key, times).windows[key].remaining == if times.len()
                <= self.threshold {
                self.threshold - times.len()
            } else {
                0
            },
        decreases times.len(),
    {
        let earlier = times.drop_last();
        if earlier.len() == 0 {
            assert(self.consume_all(key, earlier) == self);
        } else {
            assert(earlier[0] == times[0]);
            assert forall|j: int| 0 <= j < earlier.len() implies #[trigger] earlier[j] < earlier[0]
                + self.duration by {
                assert(earlier[j] == times[j]);
            }
            self.lemma_window_after(key, earlier);
        }
    }

    /// With threshold `T` and duration `D`, the calls for a key that come
    /// within `D` seconds of the one that opened its window are admitted
    /// while they are among the first `T`, call `i` (from 0) leaving
    /// `T - 1 - i`, and denied after that. A call `D` seconds or more after
    /// the opening is admitted again and leaves `T - 1`.
    pub proof fn lemma_threshold_per_window(
        self,
        key: Seq<char>,
        times: Seq<nat>,
        i: int,
        later: nat,
    )
        requires
            self.wf(),
            times.len() >= 1,
            !self.is_open(key, times[0]),
            forall|j: int| 0 <= j < times.len() ==> #[trigger] times[j] < times[0] + self.duration,
            0 <= i < times.len(),
            later >= times[0] + self.duration,
        ensures
            i < self.threshold ==> self.consume_all(key, times.take(i)).answer(key, times[i])
                == Ok::<usize, Denied>((self.threshold - 1 - i) as usize),
            i >= self.threshold ==> self.consume_all(key, times.take(i)).answer(key, times[i])
                == Err::<usize, Denied>(Denied),
            self.threshold >= 1 ==> self.consume_all(key, times).answer(key, later) == Ok::<
                usize,
                Denied,
            >((self.threshold - 1) as usize),
    {
        if self.threshold >= 1 {
            let earlier = times.take(i);
            if i == 0 {
                assert(self.consume_all(key, earlier) == self);
            } else {
                assert(earlier[0] == times[0]);
                assert forall|j: int| 0 <= j < earlier.len() implies #[trigger] earlier[j]
                    < earlier[0] + self.duration by {
                    assert(earlier[j] == times[j]);
                }
                self.lemma_window_after(key, earlier);
            }
            self.lemma_window_after(key, times);
        } else {
            self.lemma_nothing_without_threshold(key, times.take(i));
        }
    }

    /// With a threshold of 0 no call is admitted and nothing is recorded.
    pub proof fn lemma_nothing_without_threshold(self, key: Seq<char>, times: Seq<nat>)
        requires
            self.threshold == 0,
            self.wf(),
        ensures
            self.consume_all(key, times) == self,
        decreases times.len(),
    {
        if times.len() > 0 {
            self.lemma_nothing_without_threshold(key, times.drop_last());
        }
    }

    /// An admitted call uses up one admission: what the answer reports is
    /// what the key can still get at that second, where windows last for a
    /// second at least.
    pub proof fn lemma_admission_takes_one(self, key: Seq<char>, now: nat)
        requires
            self.admits(key, now),
            self.duration >= 1,
        ensures
            self.consume(key, now).available(key, now) == self.available(key, now) - 1,
            self.answer(key, now) == Ok::<usize, Denied>(
                self.consume(key, now).available(key, now) as usize,
            ),
    {
    }

    /// Once a key's window has expired, its next call opens a new window:
    /// it is admitted with a threshold less one left, and the window
    /// recorded runs for `duration` seconds from the call, whatever the
    /// expired one still allowed.
    pub proof fn lemma_new_window_after_expiry(self, key: Seq<char>, now: nat)
        requires
            self.threshold >= 1,
            self.windows.contains_key(key),
            self.windows[key].expiry <= now,
        ensures
            self.answer(key, now) == Ok::<usize, Denied>((self.threshold - 1) as usize),
            self.consume(key, now).windows[key] == (Window {
                expiry: now + self.duration,
                remaining: (self.threshold - 1) as nat,
            }),
    {
    }

    /// A call for one key leaves every other key's window as it was.
    pub proof fn lemma_other_keys_untouched(self, key: Seq<char>, now: nat, other: Seq<char>)
        requires
            other != key,
        ensures
            self.consume(key, now).windows.contains_key(other) == self.windows.contains_key(
                other,
            ),
            self.windows.contains_key(other) ==> self.consume(key, now).windows[other]
                == self.windows[other],
            forall|t: nat| #[trigger]
                self.consume(key, now).available(other, t) == self.available(other, t),
    {
    }

    /// A reclamation pass at `now` drops the key whose window has expired
    /// by then and keeps every window that has not, unchanged.
    pub proof fn lemma_purge_drops_expired(self, key: Seq<char>, now: nat)
        ensures
            !self.is_open(key, now) ==> !self.purge(now).windows.contains_key(key),
            self.is_open(key, now) ==> self.purge(now).windows.contains_key(key) && self.purge(
                now,
            ).windows[key] == self.windows[key],
            forall|t: nat| t >= now ==> #[trigger] self.purge(now).available(key, t)
                == self.available(key, t),
    {
    }

    /// What a reclamation pass at `now` leaves has not expired at `now`, so
    /// the earliest expiry that it reports lies after `now`.
    pub proof fn lemma_wake_is_later(self, now: nat, wake: nat)
        requires
            self.purge(now).earliest_expiry(wake),
        ensures
            wake > now,
            forall|k: Seq<char>| #[trigger]
                self.purge(now).windows.contains_key(k) ==> self.purge(now).windows[k].expiry
                    > now,
    {
    }

    /// Until the earliest expiry comes, a reclamation pass changes nothing.
    pub proof fn lemma_nothing_to_purge_before_wake(self, wake: nat, next: nat)
        requires
            self.earliest_expiry(wake),
            next < wake,
        ensures
            self.purge(next) == self,
    {
        assert(self.purge(next).windows =~= self.windows);
    }

    /// Two answers do not depend on the second: the call of a key without
    /// a window is answered by `first_answer`, and the call of a key whose
    /// window allows another admission is admitted.
    pub proof fn lemma_admitted_whatever_the_second(self, key: Seq<char>, now: nat)
        requires
            self.wf(),
        ensures
            !self.windows.contains_key(key) ==> self.answer(key, now) == self.first_answer(),
            self.windows.contains_key(key) && self.windows[key].remaining > 0 ==> self.answer(
                key,
                now,
            ) is Ok,
    {
    }

    /// Calls and reclamation passes keep every window below the threshold.
    pub proof fn lemma_steps_keep_wf(self, key: Seq<char>, now: nat)
        requires
            self.wf(),
        ensures
            self.consume(key, now).wf(),
            self.purge(now).wf(),
    {
    }
}

/// A fixed-window limiter.
pub struct FixedWindow {
    duration: u64,
    threshold: usize,
    inner: Table<(u128, usize)>,
    origin: Instant,
}

impl View for FixedWindow {
    type V = FixedWindowModel;

    closed spec fn view(&self) -> FixedWindowModel {
        FixedWindowModel {
            duration: self.duration as nat,
            threshold: self.threshold as nat,
            windows: Map::new(
                |k: Seq<char>| self.inner@.contains_key(k),
                |k: Seq<char>|
                    Window {
                        expiry: self.inner@[k].0 as nat,
                        remaining: self.inner@[k].1 as nat,
                    },
            ),
        }
    }
}

impl FixedWindow {
    /// A limiter that has seen no key; its clock starts now.
    pub fn init(duration: u64, threshold: usize) -> (limiter: FixedWindow)
        ensures
            limiter.wf(),
            limiter@.duration == duration,
            limiter@.threshold == threshold,
            limiter@.windows == Map::<Seq<char>, Window>::empty(),
    {
        let limiter = FixedWindow { duration, threshold, inner: Table::new(), origin: start() };
        assert(limiter@.windows =~= Map::<Seq<char>, Window>::empty());
        limiter
    }

    /// A limiter that keeps its invariant has a state that keeps the
    /// model's.
    pub proof fn lemma_view_wf(&self)
        requires
            self.wf(),
        ensures
            self@.wf(),
    {
    }

    /// The length of a window in seconds.
    pub fn duration(&self) -> (duration: u64)
        ensures
            duration == self@.duration,
    {
        self.duration
    }

    /// The admissions that one window allows.
    pub fn threshold(&self) -> (threshold: usize)
        ensures
            threshold == self@.threshold,
    {
        self.threshold
    }

    /// The reading of the monotonic clock that this limiter took when it
    /// was made.
    pub closed spec fn clock_origin(&self) -> Instant {
        self.origin
    }

    /// The reading of the monotonic clock from which this limiter counts
    /// its seconds.
    pub fn origin(&self) -> (origin: Instant)
        ensures
            origin == self.clock_origin(),
    {
        self.origin
    }

    /// The window recorded for `key`, as its expiry and the admissions it
    /// still allows.
    pub fn window(&self, key: &str) -> (window: Option<(u128, usize)>)
        ensures
            window is Some == self@.windows.contains_key(key@),
            window matches Some(w) ==> self@.windows[key@] == (Window {
                expiry: w.0 as nat,
                remaining: w.1 as nat,
            }),
    {
        match self.inner.get(key) {
            Some(window) => Some(*window),
            None => None,
        }
    }

    /// Whether a window is recorded for `key`.
    pub fn holds(&self, key: &str) -> (held: bool)
        ensures
            held == self@.windows.contains_key(key@),
    {
        self.inner.get(key).is_some()
    }

    /// The number of keys for which a window is recorded.
    pub fn len(&self) -> (n: usize)
        requires
            self.wf(),
        ensures
            n == self@.windows.dom().len(),
    {
        assert(self@.windows.dom() =~= self.inner@.dom());
        self.inner.len()
    }

    /// Records one unit of consumption for `key` at second `now`.
    ///
    /// The call is admitted exactly when the key's window, if it has one
    /// that is still open, allows another admission; the answer is the
    /// number of admissions left in the window after this one. Whatever
    /// `now` is, a key without a window gets `first_answer`, and a key whose
    /// window allows another admission is admitted.
    pub fn consume_at(&mut self, key: &str, now: u64) -> (answer: Result<usize, Denied>)
        requires
            old(self).wf(),
        ensures
            final(self).wf(),
            final(self)@ == old(self)@.consume(key@, now as nat),
            answer == old(self)@.answer(key@, now as nat),
            answer matches Ok(left) ==> left < old(self)@.threshold,
            answer is Err ==> final(self)@ == old(self)@,
            !old(self)@.windows.contains_key(key@) ==> answer == old(self)@.first_answer(),
            old(self)@.windows.contains_key(key@) && old(self)@.windows[key@].remaining > 0
                ==> answer is Ok,
            final(self).clock_origin() == old(self).clock_origin(),
    {
        let opening: u128 = now as u128 + self.duration as u128;
        let (expiry, available): (u128, usize) = match self.inner.get(key) {
            Some(window) => if window.0 > now as u128 {
                (window.0, window.1)
            } else {
                (opening, self.threshold)
            },
            None => (opening, self.threshold),
        };
        if available == 0 {
            return Err(Denied);
        }
        self.inner.put(key, (expiry, available - 1));
        assert(self@.windows =~= old(self)@.consume(key@, now as nat).windows);
        Ok(available - 1)
    }

    /// Evicts the windows that have expired at second `now` and reports
    /// the earliest expiry among those that stay, if any stays.
    pub fn rearm_at(&mut self, now: u64) -> (wake: Option<u128>)
        requires
            old(self).wf(),
        ensures
            final(self).wf(),
            Self::rearmed(old(self)@, now, final(self)@, wake),
            final(self).clock_origin() == old(self).clock_origin(),
    {
        let mut next: Table<(u128, usize)> = Table::new();
        let mut wake: Option<u128> = None;
        let n: usize = self.inner.len();
        let mut i: usize = 0;
        while i < n
            invariant
                i <= n,
                n == self.inner.key_list().len(),
                self.inner.wf(),
                next.wf(),
                forall|k: Seq<char>| #[trigger]
                    next@.contains_key(k) ==> self.inner@.contains_key(k) && next@[k]
                        == self.inner@[k] && self.inner@[k].0 > now,
                forall|k: Seq<char>| #[trigger]
                    next@.contains_key(k) ==> exists|j: int|
                        0 <= j < i && self.inner.key_list()[j] == k,
                forall|j: int|
                    0 <= j < i && self.inner@[#[trigger] self.inner.key_list()[j]].0 > now
                        ==> next@.contains_key(self.inner.key_list()[j]),
                match wake {
                    Some(t) => {
                        &&& exists|k: Seq<char>| #[trigger] next@.contains_key(k) && next@[k].0 == t
                        &&& forall|k: Seq<char>| #[trigger] next@.contains_key(k) ==> next@[k].0 >= t
                    },
                    None => forall|k: Seq<char>| !#[trigger] next@.contains_key(k),
                },
            decreases n - i,
        {
            let key: &str = self.inner.key(i);
            assert(self.inner@.contains_key(self.inner.key_list()[i as int]));
            let window: (u128, usize) = match self.inner.get(key) {
                Some(window) => *window,
                None => (0, 0),
            };
            if window.0 > now as u128 {
                let ghost before = next@;
                proof {
                    if before.contains_key(key@) {
                        let j = choose|j: int| 0 <= j < i && self.inner.key_list()[j] == key@;
                        assert(self.inner.key_list()[j] == self.inner.key_list()[i as int]);
                    }
                }
                next.put(key, window);
                assert(next@.contains_key(key@) && next@[key@].0 == window.0);
                wake = match wake {
                    Some(t) => if window.0 < t {
                        Some(window.0)
                    } else {
                        proof {
                            let k = choose|k: Seq<char>| #[trigger]
                                before.contains_key(k) && before[k].0 == t;
                            assert(next@.contains_key(k) && next@[k].0 == t);
                        }
                        Some(t)
                    },
                    None => Some(window.0),
                };
            }
            i = i + 1;
        }
        proof {
            let keys = self.inner.key_list();
            assert forall|k: Seq<char>| self.inner@.contains_key(k) && self.inner@[k].0
                > now implies next@.contains_key(k) by {
                let j = choose|j: int| 0 <= j < keys.len() && keys[j] == k;
                assert(self.inner@[keys[j]].0 > now);
            }
        }
        self.inner = next;
        proof {
            assert(self@.windows =~= old(self)@.purge(now as nat).windows);
            match wake {
                Some(t) => {
                    let k = choose|k: Seq<char>| #[trigger]
                        next@.contains_key(k) && next@[k].0 == t;
                    assert(self@.windows.contains_key(k) && self@.windows[k].expiry == t);
                },
                None => {
                    assert(self@.windows =~= Map::<Seq<char>, Window>::empty());
                },
            }
        }
        wake
    }
}

impl Limiter for FixedWindow {
    closed spec fn wf(&self) -> bool {
        &&& self.inner.wf()
        &&& self@.wf()
    }

    open spec fn limit(&self) -> nat {
        self@.threshold
    }

    open spec fn budget(&self, key: Seq<char>, now: u64) -> nat {
        self@.available(key, now as nat)
    }

    /// What a call for `key` does when the clock reads `now`.
    open spec fn consumed(
        before: FixedWindowModel,
        key: Seq<char>,
        now: u64,
        after: FixedWindowModel,
        answer: Result<usize, Denied>,
    ) -> bool {
        after == before.consume(key, now as nat) && answer == before.answer(key, now as nat)
    }

    /// What a reclamation pass does when the clock reads `now`.
    open spec fn rearmed(
        before: FixedWindowModel,
        now: u64,
        after: FixedWindowModel,
        wake: Option<u128>,
    ) -> bool {
        &&& after == before.purge(now as nat)
        &&& match wake {
            Some(t) => after.earliest_expiry(t as nat),
            None => after.windows == Map::<Seq<char>, Window>::empty(),
        }
    }

    /// Reads the clock and records one unit of consumption for `key` at
    /// that second.
    ///
    /// Whatever the clock reads, a key without a window gets
    /// `first_answer`, a threshold less one unless the threshold is 0, and
    /// a key whose window allows another admission is admitted. The clock
    /// decides for a key whose window allows none, and for the window that
    /// an admission leaves.
    fn consume(&mut self, key: &str) -> (answer: Result<usize, Denied>)
        ensures
            !old(self)@.windows.contains_key(key@) ==> answer == old(self)@.first_answer(),
            old(self)@.windows.contains_key(key@) && old(self)@.windows[key@].remaining > 0
                ==> answer is Ok,
            answer is Ok ==> final(self)@.windows.contains_key(key@),
            final(self).clock_origin() == old(self).clock_origin(),
    {
        let now: u64 = seconds_since(&self.origin);
        let answer = self.consume_at(key, now);
        assert(Self::consumed(old(self)@, key@, now, self@, answer));
        answer
    }

    /// Reads the clock and evicts the windows that have expired at that
    /// second.
    fn rearm(&mut self) -> (wake: Option<u128>)
        ensures
            final(self).clock_origin() == old(self).clock_origin(),
    {
        let now: u64 = seconds_since(&self.origin);
        let wake = self.rearm_at(now);
        assert(Self::rearmed(old(self)@, now, self@, wake));
        wake
    }
}

} // verus!
