//! A keyed store: one value per key, with the keys also kept in a list so
//! that every entry can be visited in turn.

use vstd::hash_map::StringHashMap;
use vstd::prelude::*;

verus! {

/// A map from string keys to values that can be walked entry by entry.
///
/// The hash map answers lookups; the list names every key of the map once,
/// in the order in which the keys first arrived.
#[verifier::reject_recursive_types(V)]
pub struct Table<V> {
    map: StringHashMap<V>,
    keys: Vec<String>,
}

impl<V> View for Table<V> {
    type V = Map<Seq<char>, V>;

    closed spec fn view(&self) -> Map<Seq<char>, V> {
        self.map@
    }
}

impl<V> Table<V> {
    /// The keys in the order in which they are visited.
    pub closed spec fn key_list(&self) -> Seq<Seq<char>> {
        self.keys@.map_values(|k: String| k@)
    }

    /// The list holds each key of the map once and nothing else.
    pub open spec fn wf(&self) -> bool {
        &&& self.key_list().no_duplicates()
        &&& forall|k: Seq<char>| #[trigger] self@.contains_key(k) ==> self.key_list().contains(k)
        &&& forall|i: int|
            0 <= i < self.key_list().len() ==> self@.contains_key(#[trigger] self.key_list()[i])
    }

    /// A well-formed table has as many entries as its list has keys.
    pub proof fn lemma_entry_count(&self)
        requires
            self.wf(),
        ensures
            self@.dom().finite(),
            self@.dom().len() == self.key_list().len(),
    {
        let keys = self.key_list();
        keys.unique_seq_to_set();
        assert forall|k: Seq<char>| keys.to_set().contains(k) implies self@.dom().contains(k) by {
            let i = choose|i: int| 0 <= i < keys.len() && keys[i] == k;
            assert(self@.contains_key(keys[i]));
        }
        assert(self@.dom() =~= keys.to_set());
    }

    /// An empty table.
    pub fn new() -> (table: Self)
        ensures
            table.wf(),
            table@ == Map::<Seq<char>, V>::empty(),
            table.key_list() == Seq::<Seq<char>>::empty(),
    {
        let table = Table { map: StringHashMap::new(), keys: Vec::new() };
        assert(table.key_list() =~= Seq::<Seq<char>>::empty());
        table
    }

    /// The number of entries.
    pub fn len(&self) -> (n: usize)
        requires
            self.wf(),
        ensures
            n == self.key_list().len(),
            n == self@.dom().len(),
    {
        proof {
            self.lemma_entry_count();
        }
        self.keys.len()
    }

    /// The key at place `i` of the list.
    pub fn key(&self, i: usize) -> (k: &str)
        requires
            i < self.key_list().len(),
        ensures
            k@ == self.key_list()[i as int],
    {
        self.keys[i].as_str()
    }

    /// The value stored under `key`, if there is one.
    pub fn get(&self, key: &str) -> (value: Option<&V>)
        ensures
            match value {
                Some(v) => self@.contains_key(key@) && *v == self@[key@],
                None => !self@.contains_key(key@),
            },
    {
        self.map.get(key)
    }

    /// Stores `value` under `key`, in place of what was there. A key that is
    /// new goes to the end of the list.
    pub fn put(&mut self, key: &str, value: V)
        requires
            old(self).wf(),
        ensures
            final(self).wf(),
            final(self)@ == old(self)@.insert(key@, value),
            final(self).key_list() == if old(self)@.contains_key(key@) {
                old(self).key_list()
            } else {
                old(self).key_list().push(key@)
            },
    {
        let known: bool = self.map.contains_key(key);
        if !known {
            self.keys.push(key.to_owned());
        }
        self.map.insert(key.to_owned(), value);
        proof {
            let before = old(self).key_list();
            let after = self.key_list();
            assert(known == old(self)@.contains_key(key@));
            if known {
                assert(after =~= before);
            } else {
                assert(after =~= before.push(key@));
                assert forall|i: int| 0 <= i < before.len() implies before[i] != key@ by {
                    assert(old(self)@.contains_key(before[i]));
                }
            }
            assert forall|k: Seq<char>| #[trigger] self@.contains_key(k) implies after.contains(
                k,
            ) by {
                if k == key@ {
                    if known {
                        assert(before.contains(k));
                    } else {
                        assert(after[after.len() - 1] == k);
                    }
                } else {
                    assert(old(self)@.contains_key(k));
                    let i = choose|i: int| 0 <= i < before.len() && before[i] == k;
                    assert(after[i] == k);
                }
            }
            assert forall|i: int| 0 <= i < after.len() implies self@.contains_key(
                #[trigger] after[i],
            ) by {
                if i < before.len() {
                    assert(old(self)@.contains_key(before[i]));
                }
            }
        }
    }
}

} // verus!
