//! Logs of seconds in ascending order: what a key's admissions leave
//! behind. Equal entries are kept, each as often as it was recorded.

use vstd::prelude::*;

verus! {

/// No entry of `log` is later than one that follows it.
pub open spec fn ascending(log: Seq<u64>) -> bool {
    forall|i: int, j: int| 0 <= i <= j < log.len() ==> log[i] <= log[j]
}

/// The entries of `log` that are `from` or later, in the order of `log`.
pub open spec fn entries_from(log: Seq<u64>, from: int) -> Seq<u64>
    decreases log.len(),
{
    if log.len() == 0 {
        log
    } else if log.last() >= from {
        entries_from(log.drop_last(), from).push(log.last())
    } else {
        entries_from(log.drop_last(), from)
    }
}

/// The number of entries of `log` that are `from` or later.
pub open spec fn count_from(log: Seq<u64>, from: int) -> nat {
    entries_from(log, from).len()
}

/// `log` with `t` added behind the entries that are not later than `t`.
pub open spec fn with_entry(log: Seq<u64>, t: u64) -> Seq<u64> {
    log.insert(log.len() - count_from(log, t + 1), t)
}

/// What `entries_from` keeps is part of `log`, none of it before `from`,
/// and it is all of `log` that is not before `from`.
pub proof fn lemma_entries_from(log: Seq<u64>, from: int)
    ensures
        count_from(log, from) <= log.len(),
        forall|i: int|
            0 <= i < count_from(log, from) ==> #[trigger] entries_from(log, from)[i] >= from,
        forall|i: int|
            0 <= i < count_from(log, from) ==> log.contains(#[trigger] entries_from(log, from)[i]),
        forall|i: int|
            0 <= i < log.len() && #[trigger] log[i] >= from ==> entries_from(log, from).contains(
                log[i],
            ),
        (forall|i: int| 0 <= i < log.len() ==> #[trigger] log[i] < from) ==> count_from(log, from)
            == 0,
        (forall|i: int| 0 <= i < log.len() ==> #[trigger] log[i] >= from) ==> entries_from(
            log,
            from,
        ) == log,
    decreases log.len(),
{
    if log.len() > 0 {
        let rest = log.drop_last();
        let kept = entries_from(rest, from);
        let all = entries_from(log, from);
        lemma_entries_from(rest, from);
        assert forall|i: int| 0 <= i < all.len() implies log.contains(#[trigger] all[i]) by {
            if i < kept.len() {
                assert(rest.contains(kept[i]));
                let j = choose|j: int| 0 <= j < rest.len() && rest[j] == kept[i];
                assert(log[j] == all[i]);
            } else {
                assert(log[log.len() - 1] == all[i]);
            }
        }
        assert forall|i: int| 0 <= i < log.len() && #[trigger] log[i] >= from implies all.contains(
            log[i],
        ) by {
            if i < rest.len() {
                assert(rest[i] == log[i]);
                assert(kept.contains(rest[i]));
                let j = choose|j: int| 0 <= j < kept.len() && kept[j] == rest[i];
                assert(all[j] == log[i]);
            } else {
                assert(all[all.len() - 1] == log[i]);
            }
        }
        if forall|i: int| 0 <= i < log.len() ==> #[trigger] log[i] < from {
            assert forall|i: int| 0 <= i < rest.len() implies #[trigger] rest[i] < from by {
                assert(rest[i] == log[i]);
            }
        }
        if forall|i: int| 0 <= i < log.len() ==> #[trigger] log[i] >= from {
            assert forall|i: int| 0 <= i < rest.len() implies #[trigger] rest[i] >= from by {
                assert(rest[i] == log[i]);
            }
            assert(log.last() == log[log.len() - 1]);
            assert(all =~= log);
        }
    }
}

/// A later bound keeps no more entries than an earlier one.
pub proof fn lemma_count_from_falls(log: Seq<u64>, earlier: int, later: int)
    requires
        earlier <= later,
    ensures
        count_from(log, later) <= count_from(log, earlier),
    decreases log.len(),
{
    if log.len() > 0 {
        lemma_count_from_falls(log.drop_last(), earlier, later);
    }
}

/// In an ascending log the entries from a bound on are its tail.
pub proof fn lemma_entries_from_tail(log: Seq<u64>, from: int)
    requires
        ascending(log),
    ensures
        count_from(log, from) <= log.len(),
        entries_from(log, from) == log.skip(log.len() - count_from(log, from)),
        forall|i: int| 0 <= i < log.len() - count_from(log, from) ==> #[trigger] log[i] < from,
        forall|i: int|
            log.len() - count_from(log, from) <= i < log.len() ==> #[trigger] log[i] >= from,
        ascending(entries_from(log, from)),
    decreases log.len(),
{
    if log.len() > 0 {
        let rest = log.drop_last();
        assert forall|i: int, j: int| 0 <= i <= j < rest.len() implies rest[i] <= rest[j] by {
            assert(rest[i] == log[i] && rest[j] == log[j]);
        }
        lemma_entries_from_tail(rest, from);
        let kept = count_from(rest, from);
        let last = log.len() - 1;
        assert(log.last() == log[last]);
        if log[last] >= from {
            assert(entries_from(log, from) =~= log.skip(log.len() - (kept + 1)));
        } else {
            if kept > 0 {
                assert(rest[rest.len() - 1] >= from);
                assert(log[last - 1] == rest[rest.len() - 1]);
                assert(log[last - 1] <= log[last]);
            }
            assert(entries_from(log, from) =~= log.skip(log.len() as int));
        }
        let cut = log.len() - count_from(log, from);
        assert forall|i: int| 0 <= i < cut implies #[trigger] log[i] < from by {
            if i < last {
                assert(rest[i] == log[i]);
            }
        }
        assert forall|i: int| cut <= i < log.len() implies #[trigger] log[i] >= from by {
            if i < last {
                assert(rest[i] == log[i]);
            }
        }
        let tail = entries_from(log, from);
        assert forall|i: int, j: int| 0 <= i <= j < tail.len() implies tail[i] <= tail[j] by {
            assert(tail[i] == log[cut + i] && tail[j] == log[cut + j]);
        }
    }
}

/// One place decides the count: where everything before is earlier than
/// the bound and everything from there on is not.
pub proof fn lemma_count_from_at(log: Seq<u64>, from: int, at: int)
    requires
        0 <= at <= log.len(),
        forall|i: int| 0 <= i < at ==> #[trigger] log[i] < from,
        forall|i: int| at <= i < log.len() ==> #[trigger] log[i] >= from,
    ensures
        count_from(log, from) == log.len() - at,
        entries_from(log, from) == log.skip(at),
    decreases log.len(),
{
    if log.len() > 0 {
        let rest = log.drop_last();
        if at == log.len() {
            assert forall|i: int| 0 <= i < rest.len() implies #[trigger] rest[i] < from by {
                assert(rest[i] == log[i]);
            }
            lemma_count_from_at(rest, from, at - 1);
            assert(log.last() == log[at - 1]);
            assert(entries_from(log, from) =~= log.skip(at));
        } else {
            assert forall|i: int| 0 <= i < at implies #[trigger] rest[i] < from by {
                assert(rest[i] == log[i]);
            }
            assert forall|i: int| at <= i < rest.len() implies #[trigger] rest[i] >= from by {
                assert(rest[i] == log[i]);
            }
            lemma_count_from_at(rest, from, at);
            assert(log.last() == log[log.len() - 1]);
            assert(entries_from(log, from) =~= log.skip(at));
        }
    } else {
        assert(entries_from(log, from) =~= log.skip(at));
    }
}

/// Where `with_entry` puts `t` into an ascending log: behind every entry
/// that is not later than `t` and before every entry that is.
pub proof fn lemma_with_entry_place(log: Seq<u64>, t: u64)
    requires
        ascending(log),
    ensures
        0 <= log.len() - count_from(log, t + 1) <= log.len(),
        forall|i: int| 0 <= i < log.len() - count_from(log, t + 1) ==> #[trigger] log[i] <= t,
        forall|i: int|
            log.len() - count_from(log, t + 1) <= i < log.len() ==> #[trigger] log[i] > t,
        with_entry(log, t).len() == log.len() + 1,
        with_entry(log, t)[log.len() - count_from(log, t + 1)] == t,
        forall|i: int|
            0 <= i < log.len() - count_from(log, t + 1) ==> #[trigger] with_entry(log, t)[i]
                == log[i],
        forall|i: int|
            log.len() - count_from(log, t + 1) < i <= log.len() ==> #[trigger] with_entry(log, t)[i]
                == log[i - 1],
{
    lemma_entries_from_tail(log, t + 1);
    let at = log.len() - count_from(log, t + 1);
    assert forall|i: int| 0 <= i < at implies #[trigger] log[i] <= t by {
        assert(log[i] < t + 1);
    }
    assert forall|i: int| at <= i < log.len() implies #[trigger] log[i] > t by {
        assert(log[i] >= t + 1);
    }
}

/// Adding an entry to an ascending log keeps it ascending and keeps what
/// was there: the log then holds the entry and what it held, no more.
pub proof fn lemma_with_entry_holds(log: Seq<u64>, t: u64)
    requires
        ascending(log),
    ensures
        ascending(with_entry(log, t)),
        with_entry(log, t).len() == log.len() + 1,
        with_entry(log, t).contains(t),
        forall|i: int| 0 <= i < log.len() ==> with_entry(log, t).contains(#[trigger] log[i]),
        forall|i: int|
            0 <= i < with_entry(log, t).len() ==> #[trigger] with_entry(log, t)[i] == t
                || log.contains(with_entry(log, t)[i]),
{
    lemma_with_entry_place(log, t);
    let at = log.len() - count_from(log, t + 1);
    let grown = with_entry(log, t);
    assert(grown[at] == t);
    assert forall|i: int| 0 <= i < log.len() implies grown.contains(#[trigger] log[i]) by {
        if i < at {
            assert(grown[i] == log[i]);
        } else {
            assert(grown[i + 1] == log[i]);
        }
    }
    assert forall|i: int| 0 <= i < grown.len() implies #[trigger] grown[i] == t || log.contains(
        grown[i],
    ) by {
        if i < at {
            assert(grown[i] == log[i]);
        } else if i > at {
            assert(grown[i] == log[i - 1]);
        }
    }
    assert forall|i: int, j: int| 0 <= i <= j < grown.len() implies grown[i] <= grown[j] by {
        if j < at {
            assert(grown[i] == log[i] && grown[j] == log[j]);
        } else if j == at {
            if i < at {
                assert(grown[i] == log[i] && log[i] <= t);
            }
        } else {
            assert(grown[j] == log[j - 1] && log[j - 1] > t);
            if i < at {
                assert(grown[i] == log[i] && log[i] <= t);
            } else if i > at {
                assert(grown[i] == log[i - 1]);
            }
        }
    }
}

/// Adding an entry to an ascending log raises by one the count from every
/// bound that the entry reaches, and leaves the other counts.
pub proof fn lemma_with_entry_count(log: Seq<u64>, t: u64, from: int)
    requires
        ascending(log),
    ensures
        count_from(with_entry(log, t), from) == count_from(log, from) + if t >= from {
            1nat
        } else {
            0nat
        },
{
    lemma_with_entry_place(log, t);
    lemma_entries_from_tail(log, from);
    let at = log.len() - count_from(log, t + 1);
    let cut = log.len() - count_from(log, from);
    let grown = with_entry(log, t);
    if t >= from {
        if cut > at {
            assert(log[at] > t);
            assert(log[at] < from);
        }
        assert forall|i: int| 0 <= i < cut implies #[trigger] grown[i] < from by {
            assert(grown[i] == log[i]);
            assert(log[i] < from);
        }
        assert forall|i: int| cut <= i < grown.len() implies #[trigger] grown[i] >= from by {
            if i < at {
                assert(grown[i] == log[i]);
                assert(log[i] >= from);
            } else if i > at {
                assert(grown[i] == log[i - 1]);
                assert(log[i - 1] > t);
            }
        }
        lemma_count_from_at(grown, from, cut);
    } else {
        if at > cut {
            assert(log[cut] <= t);
            assert(log[cut] >= from);
        }
        assert forall|i: int| 0 <= i < cut + 1 implies #[trigger] grown[i] < from by {
            if i < at {
                assert(grown[i] == log[i]);
                assert(log[i] <= t);
            } else if i > at {
                assert(grown[i] == log[i - 1]);
                assert(log[i - 1] < from);
            }
        }
        assert forall|i: int| cut + 1 <= i < grown.len() implies #[trigger] grown[i] >= from by {
            assert(grown[i] == log[i - 1]);
            assert(log[i - 1] >= from);
        }
        lemma_count_from_at(grown, from, cut + 1);
    }
}

/// A log that holds an entry before the bound holds more than the bound
/// keeps.
pub proof fn lemma_count_from_misses(log: Seq<u64>, from: int, entry: u64)
    requires
        log.contains(entry),
        entry < from,
    ensures
        count_from(log, from) < log.len(),
    decreases log.len(),
{
    let at = choose|i: int| 0 <= i < log.len() && log[i] == entry;
    let rest = log.drop_last();
    lemma_entries_from(rest, from);
    if at < log.len() - 1 {
        assert(rest[at] == entry);
        lemma_count_from_misses(rest, from, entry);
    }
}

/// The number of entries of `log` that are `from` or later.
pub fn count_entries_from(log: &Vec<u64>, from: u64) -> (count: usize)
    ensures
        count == count_from(log@, from as int),
{
    let mut count: usize = 0;
    let mut i: usize = 0;
    while i < log.len()
        invariant
            i <= log.len(),
            count <= i,
            count == count_from(log@.take(i as int), from as int),
        decreases log.len() - i,
    {
        assert(log@.take(i + 1).drop_last() =~= log@.take(i as int));
        if log[i] >= from {
            count = count + 1;
        }
        i = i + 1;
    }
    assert(log@.take(i as int) =~= log@);
    count
}

/// The entries of `log` that are `from` or later, in the order of `log`.
pub fn keep_entries_from(log: &Vec<u64>, from: u64) -> (kept: Vec<u64>)
    ensures
        kept@ == entries_from(log@, from as int),
{
    let mut kept: Vec<u64> = Vec::new();
    let mut i: usize = 0;
    while i < log.len()
        invariant
            i <= log.len(),
            kept@ == entries_from(log@.take(i as int), from as int),
        decreases log.len() - i,
    {
        assert(log@.take(i + 1).drop_last() =~= log@.take(i as int));
        if log[i] >= from {
            kept.push(log[i]);
        }
        i = i + 1;
    }
    assert(log@.take(i as int) =~= log@);
    kept
}

/// A copy of the ascending `log` with `t` added behind the entries that
/// are not later than `t`.
pub fn add_entry(log: &Vec<u64>, t: u64) -> (grown: Vec<u64>)
    requires
        ascending(log@),
    ensures
        grown@ == with_entry(log@, t),
        ascending(grown@),
{
    let mut grown: Vec<u64> = Vec::new();
    let mut i: usize = 0;
    while i < log.len() && log[i] <= t
        invariant
            i <= log.len(),
            grown@ == log@.take(i as int),
            forall|j: int| 0 <= j < i ==> #[trigger] log[j] <= t,
        decreases log.len() - i,
    {
        grown.push(log[i]);
        assert(log@.take(i + 1) =~= log@.take(i as int).push(log[i as int]));
        i = i + 1;
    }
    let at: usize = i;
    proof {
        assert forall|j: int| at <= j < log.len() implies #[trigger] log[j] >= t + 1 by {
            assert(log[at as int] <= log[j]);
        }
        lemma_count_from_at(log@, t + 1, at as int);
        lemma_with_entry_holds(log@, t);
    }
    grown.push(t);
    while i < log.len()
        invariant
            at <= i <= log.len(),
            grown@ == log@.take(at as int).push(t) + log@.subrange(at as int, i as int),
        decreases log.len() - i,
    {
        grown.push(log[i]);
        assert(log@.subrange(at as int, i + 1) =~= log@.subrange(at as int, i as int).push(
            log[i as int],
        ));
        i = i + 1;
    }
    assert(grown@ =~= log@.insert(at as int, t));
    grown
}

} // verus!
