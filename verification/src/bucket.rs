//! Token bucket: each key holds up to `capacity` tokens, one is spent per
//! admission, and every refill gives one back.

use crate::limiter::{Denied, Limiter};
use crate::table::Table;
use vstd::prelude::*;

verus! {

/// What a token bucket records: the tokens left to each key that has been
/// seen. A key that has not been seen has all of them.
pub struct BucketModel {
    pub capacity: nat,
    pub tokens: Map<Seq<char>, nat>,
}

impl BucketModel {
    /// No key holds more than the capacity.
    pub open spec fn wf(self) -> bool {
        forall|k: Seq<char>| #[trigger]
            self.tokens.contains_key(k) ==> self.tokens[k] <= self.capacity
    }

    /// The tokens that `key` can still spend.
    pub open spec fn available(self, key: Seq<char>) -> nat {
        if self.tokens.contains_key(key) {
            self.tokens[key]
        } else {
            self.capacity
        }
    }

    /// Whether a call for `key` is admitted.
    pub open spec fn admits(self, key: Seq<char>) -> bool {
        self.available(key) > 0
    }

    /// The answer to a call for `key`: the tokens left after it, or a denial.
    pub open spec fn answer(self, key: Seq<char>) -> Result<usize, Denied> {
        if self.admits(key) {
            Ok((self.available(key) - 1) as usize)
        } else {
            Err(Denied)
        }
    }

    /// The state after a call for `key`: one token less where the call is
    /// admitted, the same state where it is denied.
    pub open spec fn consume(self, key: Seq<char>) -> BucketModel {
        if self.admits(key) {
            BucketModel {
                capacity: self.capacity,
                tokens: self.tokens.insert(key, (self.available(key) - 1) as nat),
            }
        } else {
            self
        }
    }

    /// The state after one refill: one token more for every key that is
    /// below the capacity.
    pub open spec fn refill(self) -> BucketModel {
        BucketModel {
            capacity: self.capacity,
            tokens: Map::new(
                |k: Seq<char>| self.tokens.contains_key(k),
                |k: Seq<char>|
                    if self.tokens[k] < self.capacity {
                        self.tokens[k] + 1
                    } else {
                        self.tokens[k]
                    },
            ),
        }
    }
}

impl BucketModel {
    /// The state after `n` calls in a row for `key`.
    pub open spec fn consume_n(self, key: Seq<char>, n: nat) -> BucketModel
        decreases n,
    {
        if n == 0 {
            self
        } else {
            self.consume_n(key, (n - 1) as nat).consume(key)
        }
    }

    /// After `n` calls in a row a key that was new holds `capacity - n`
    /// tokens, and none once `n` has passed the capacity.
    pub proof fn lemma_tokens_after(self, key: Seq<char>, n: nat)
        requires
            !self.tokens.contains_key(key),
        ensures
            self.consume_n(key, n).capacity == self.capacity,
            self.consume_n(key, n).available(key) == if n <= self.capacity {
                self.capacity - n
            } else {
                0
            },
            n >= 1 && self.capacity >= 1 ==> self.consume_n(key, n).tokens.contains_key(key),
        decreases n,
    {
        if n > 0 {
            self.lemma_tokens_after(key, (n - 1) as nat);
        }
    }

    /// A key that is new gets exactly `capacity` calls in a row: call `i`,
    /// counted from 0, is admitted and leaves `capacity - 1 - i` tokens, and
    /// the call after the last of them is denied. One refill later exactly
    /// one more call is admitted.
    pub proof fn lemma_burst_then_refill(self, key: Seq<char>, i: nat)
        requires
            !self.tokens.contains_key(key),
        ensures
            i < self.capacity ==> self.consume_n(key, i).answer(key) == Ok::<usize, Denied>(
                (self.capacity - 1 - i) as usize,
            ),
            self.consume_n(key, self.capacity).answer(key) == Err::<usize, Denied>(Denied),
            self.capacity >= 1 ==> ({
                let refilled = self.consume_n(key, self.capacity + 1).refill();
                &&& refilled.answer(key) == Ok::<usize, Denied>(0)
                &&& refilled.consume(key).answer(key) == Err::<usize, Denied>(Denied)
            }),
    {
        self.lemma_tokens_after(key, i);
        self.lemma_tokens_after(key, self.capacity);
        self.lemma_tokens_after(key, self.capacity + 1);
    }

    /// An admitted call uses up one token: what the answer reports is what
    /// the key can still spend.
    pub proof fn lemma_admission_takes_one(self, key: Seq<char>)
        requires
            self.admits(key),
        ensures
            self.consume(key).available(key) == self.available(key) - 1,
            self.answer(key) == Ok::<usize, Denied>(self.consume(key).available(key) as usize),
    {
    }

    /// A call for one key leaves every other key with the tokens it had.
    pub proof fn lemma_other_keys_untouched(self, key: Seq<char>, other: Seq<char>)
        requires
            other != key,
        ensures
            self.consume(key).available(other) == self.available(other),
            self.consume(key).tokens.contains_key(other) == self.tokens.contains_key(other),
    {
    }

    /// Calls and refills keep every key within the capacity, and a refill
    /// leaves no key that is held without a token, unless the capacity is 0.
    pub proof fn lemma_steps_keep_wf(self, key: Seq<char>)
        requires
            self.wf(),
        ensures
            self.consume(key).wf(),
            self.refill().wf(),
            self.capacity >= 1 ==> forall|k: Seq<char>| #[trigger]
                self.refill().tokens.contains_key(k) ==> self.refill().tokens[k] >= 1,
    {
    }
}

/// A token bucket limiter.
pub struct Bucket {
    capacity: usize,
    inner: Table<usize>,
}

impl View for Bucket {
    type V = BucketModel;

    closed spec fn view(&self) -> BucketModel {
        BucketModel {
            capacity: self.capacity as nat,
            tokens: Map::new(
                |k: Seq<char>| self.inner@.contains_key(k),
                |k: Seq<char>| self.inner@[k] as nat,
            ),
        }
    }
}

impl Bucket {
    /// A bucket limiter that has seen no key.
    pub fn init(capacity: usize) -> (bucket: Bucket)
        ensures
            bucket.wf(),
            bucket@.capacity == capacity,
            bucket@.tokens == Map::<Seq<char>, nat>::empty(),
    {
        let bucket = Bucket { capacity, inner: Table::new() };
        assert(bucket@.tokens =~= Map::<Seq<char>, nat>::empty());
        bucket
    }

    /// A limiter that keeps its invariant has a state that keeps the
    /// model's.
    pub proof fn lemma_view_wf(&self)
        requires
            self.wf(),
        ensures
            self@.wf(),
    {
    }

    /// The tokens that a key holds when it is full.
    pub fn capacity(&self) -> (capacity: usize)
        ensures
            capacity == self@.capacity,
    {
        self.capacity
    }

    /// The tokens that `key` can still spend.
    pub fn tokens(&self, key: &str) -> (tokens: usize)
        ensures
            tokens == self@.available(key@),
    {
        match self.inner.get(key) {
            Some(held) => *held,
            None => self.capacity,
        }
    }

    /// Whether anything is recorded for `key`.
    pub fn holds(&self, key: &str) -> (held: bool)
        ensures
            held == self@.tokens.contains_key(key@),
    {
        self.inner.get(key).is_some()
    }

    /// The number of keys for which something is recorded.
    pub fn len(&self) -> (n: usize)
        requires
            self.wf(),
        ensures
            n == self@.tokens.dom().len(),
    {
        assert(self@.tokens.dom() =~= self.inner@.dom());
        self.inner.len()
    }
}

impl Limiter for Bucket {
    closed spec fn wf(&self) -> bool {
        &&& self.inner.wf()
        &&& self@.wf()
    }

    open spec fn limit(&self) -> nat {
        self@.capacity
    }

    open spec fn budget(&self, key: Seq<char>, now: u64) -> nat {
        self@.available(key)
    }

    /// What a call for `key` does; a bucket reads no clock.
    open spec fn consumed(
        before: BucketModel,
        key: Seq<char>,
        now: u64,
        after: BucketModel,
        answer: Result<usize, Denied>,
    ) -> bool {
        after == before.consume(key) && answer == before.answer(key)
    }

    /// What a refill does; a bucket reads no clock.
    open spec fn rearmed(
        before: BucketModel,
        now: u64,
        after: BucketModel,
        wake: Option<u128>,
    ) -> bool {
        after == before.refill() && wake is None
    }

    /// Spends one token of `key`: admitted exactly when the key has a token
    /// left, with the number of tokens left after the call as the answer.
    fn consume(&mut self, key: &str) -> (answer: Result<usize, Denied>)
        ensures
            final(self)@ == old(self)@.consume(key@),
            answer == old(self)@.answer(key@),
    {
        let tokens: usize = match self.inner.get(key) {
            Some(held) => *held,
            None => self.capacity,
        };
        if tokens == 0 {
            assert(Self::consumed(old(self)@, key@, 0, self@, Err(Denied)));
            return Err(Denied);
        }
        self.inner.put(key, tokens - 1);
        assert(self@.tokens =~= old(self)@.consume(key@).tokens);
        let left: usize = tokens - 1;
        assert(Self::consumed(old(self)@, key@, 0, self@, Ok(left)));
        Ok(left)
    }

    /// Refills: every key below the capacity gets one token. A bucket has
    /// no wake time to report.
    fn rearm(&mut self) -> (wake: Option<u128>)
        ensures
            wake is None,
            final(self)@ == old(self)@.refill(),
    {
        let mut next: Table<usize> = Table::new();
        let n: usize = self.inner.len();
        let mut i: usize = 0;
        while i < n
            invariant
                i <= n,
                n == self.inner.key_list().len(),
                self.inner.wf(),
                self@.wf(),
                next.wf(),
                next.key_list() == self.inner.key_list().take(i as int),
                forall|k: Seq<char>| #[trigger]
                    next@.contains_key(k) ==> self.inner@.contains_key(k) && next@[k]
                        == self@.refill().tokens[k],
            decreases n - i,
        {
            let key: &str = self.inner.key(i);
            assert(self.inner@.contains_key(self.inner.key_list()[i as int]));
            let held: usize = match self.inner.get(key) {
                Some(held) => *held,
                None => 0,
            };
            let filled: usize = if held < self.capacity {
                held + 1
            } else {
                held
            };
            proof {
                let keys = self.inner.key_list();
                if next@.contains_key(key@) {
                    let j = choose|j: int| 0 <= j < i && keys.take(i as int)[j] == key@;
                    assert(keys[j] == keys[i as int]);
                }
                assert(keys.take(i as int).push(key@) =~= keys.take(i + 1));
            }
            next.put(key, filled);
            i = i + 1;
        }
        proof {
            let keys = self.inner.key_list();
            assert(keys.take(n as int) =~= keys);
            assert forall|k: Seq<char>| self.inner@.contains_key(k) implies next@.contains_key(
                k,
            ) by {
                let j = choose|j: int| 0 <= j < keys.len() && keys[j] == k;
                assert(next@.contains_key(next.key_list()[j]));
            }
        }
        self.inner = next;
        assert(self@.tokens =~= old(self)@.refill().tokens);
        assert(Self::rearmed(old(self)@, 0, self@, None));
        None
    }
}

} // verus!
