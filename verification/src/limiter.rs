//! The capability that every admission strategy offers.

use vstd::prelude::*;

verus! {

/// The one failure an admission decision can report: the key has used up
/// its budget for the current accounting window.
#[derive(Clone, Copy, Debug, PartialEq, Eq, Structural)]
pub struct Denied;

impl Denied {
    /// The words that go with a denial.
    pub fn message(&self) -> (text: &'static str)
        ensures
            text@ == "tokens run out"@,
    {
        "tokens run out"
    }
}

/// An admission strategy: it decides call by call whether a key may go on,
/// and gives back what has aged out when asked to.
///
/// A strategy that measures time reads its own clock inside `consume` and
/// `rearm`. What the two do is stated for each reading `now` that the clock
/// may give, over the strategy's view.
pub trait Limiter: View + Sized {
    /// The invariant of the strategy's state.
    spec fn wf(&self) -> bool;

    /// The most admissions that one window allows to a key.
    spec fn limit(&self) -> nat;

    /// The admissions that `key` can still get at clock reading `now`.
    spec fn budget(&self, key: Seq<char>, now: u64) -> nat;

    /// Whether a call for `key` at clock reading `now` takes the state
    /// `before` to `after` and gives `answer`.
    spec fn consumed(
        before: Self::V,
        key: Seq<char>,
        now: u64,
        after: Self::V,
        answer: Result<usize, Denied>,
    ) -> bool;

    /// Whether a reclamation pass at clock reading `now` takes the state
    /// `before` to `after` and reports `wake`.
    spec fn rearmed(before: Self::V, now: u64, after: Self::V, wake: Option<u128>) -> bool;

    /// Tries to record one unit of consumption for `key`.
    ///
    /// On success the answer is the number of units left to the key, which
    /// is below the limit. A denial leaves the state as it was. Whatever the
    /// answer, no other key's budget changes.
    fn consume(&mut self, key: &str) -> (answer: Result<usize, Denied>)
        requires
            old(self).wf(),
        ensures
            final(self).wf(),
            final(self).limit() == old(self).limit(),
            exists|now: u64| #[trigger] Self::consumed(old(self)@, key@, now, final(self)@, answer),
            answer matches Ok(left) ==> left < old(self).limit(),
            answer is Err ==> final(self)@ == old(self)@,
            forall|other: Seq<char>, now: u64|
                other != key@ ==> #[trigger] final(self).budget(other, now) == old(self).budget(
                    other,
                    now,
                ),
    ;

    /// Gives back what has aged out of relevance and reports the earliest
    /// second at which doing so again could matter, if the strategy knows
    /// one. That second can lie past the last that the clock can read.
    fn rearm(&mut self) -> (wake: Option<u128>)
        requires
            old(self).wf(),
        ensures
            final(self).wf(),
            final(self).limit() == old(self).limit(),
            exists|now: u64| #[trigger] Self::rearmed(old(self)@, now, final(self)@, wake),
    ;
}

/// What the reclaimer does between two passes.
#[derive(Clone, Copy, Debug, PartialEq, Eq, Structural)]
pub enum Pause {
    /// Sleep until this second of the limiter's clock, or until a call is
    /// admitted, whichever comes first.
    Until(u128),
    /// Nothing is held that could expire: sleep until a call is admitted.
    ForSignal,
}

/// The pause that the wake time of a pass calls for.
pub fn pause_after(wake: Option<u128>) -> (pause: Pause)
    ensures
        pause == match wake {
            Some(t) => Pause::Until(t),
            None => Pause::ForSignal,
        },
{
    match wake {
        Some(t) => Pause::Until(t),
        None => Pause::ForSignal,
    }
}

/// One round of the reclaimer: a pass over `limiter`, and the pause that
/// follows it.
pub fn purge_expired<L: Limiter>(limiter: &mut L) -> (pause: Pause)
    requires
        old(limiter).wf(),
    ensures
        final(limiter).wf(),
        final(limiter).limit() == old(limiter).limit(),
        exists|now: u64, wake: Option<u128>| #[trigger]
            L::rearmed(old(limiter)@, now, final(limiter)@, wake) && pause == match wake {
                Some(t) => Pause::Until(t),
                None => Pause::ForSignal,
            },
{
    let wake = limiter.rearm();
    pause_after(wake)
}

} // verus!
