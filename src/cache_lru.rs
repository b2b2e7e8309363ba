//! The in-memory recency store.
use vstd::prelude::*;

use crate::key::CacheKey;
use crate::model::{
    after_get, after_put, has_key, keys_of, lemma_after_put_well_formed, lemma_slot_at, lookup,
    record_views, slot_of, value_views, well_formed,
};

verus! {

/// A store of at most `capacity` entries that evicts the least recently
/// used entry to make room for a new key. Both `put` and `get` count as use.
#[derive(Debug)]
pub struct Cache<K, V> {
    capacity: usize,
    /// Most recently used first; no key twice.
    entries: Vec<(K, V)>,
}

impl<K: CacheKey, V> View for Cache<K, V> {
    type V = Seq<(<K as View>::V, V)>;

    closed spec fn view(&self) -> Seq<(<K as View>::V, V)> {
        self.entries@.map_values(|e: (K, V)| (e.0@, e.1))
    }
}

impl<K: CacheKey, V> Cache<K, V> {
    /// The maximum number of entries.
    pub closed spec fn cap(&self) -> nat {
        self.capacity as nat
    }

    /// Keys unique, at most `cap()` entries, `cap()` positive.
    pub open spec fn wf(&self) -> bool {
        well_formed(self@, self.cap())
    }

    /// Creates an empty store that holds at most `capacity` entries.
    pub fn new(capacity: usize) -> (r: Self)
        requires
            capacity > 0,
        ensures
            r@ == Seq::<(<K as View>::V, V)>::empty(),
            r.cap() == capacity,
            r.wf(),
    {
        let r = Cache { capacity, entries: Vec::new() };
        assert(r@ =~= Seq::<(<K as View>::V, V)>::empty());
        r
    }

    /// The position of `key` in the recency order, if it is present.
    fn position_of(&self, key: &K) -> (r: Option<usize>)
        requires
            self.wf(),
        ensures
            match r {
                Some(i) => has_key(self@, key@) && i == slot_of(self@, key@),
                None => !has_key(self@, key@),
            },
    {
        let mut i: usize = 0;
        while i < self.entries.len()
            invariant
                self.wf(),
                i <= self.entries@.len(),
                self@.len() == self.entries@.len(),
                forall|j: int| 0 <= j < i ==> self@[j].0 != key@,
            decreases self.entries@.len() - i,
        {
            if self.entries[i].0.same_key(key) {
                proof {
                    lemma_slot_at(self@, i as int);
                }
                return Some(i);
            }
            i = i + 1;
        }
        proof {
            if has_key(self@, key@) {
                let ks = keys_of(self@);
                let j = ks.index_of(key@);
                assert(ks[j] == self@[j].0);
            }
        }
        None
    }

    /// Stores `value` under `key` and makes `key` the most recently used.
    /// When `key` is new and the store is full, the least recently used
    /// entry is evicted first.
    pub fn put(&mut self, key: K, value: V)
        requires
            old(self).wf(),
        ensures
            final(self)@ == after_put(old(self)@, old(self).cap(), key@, value),
            final(self).cap() == old(self).cap(),
            final(self).wf(),
    {
        proof {
            lemma_after_put_well_formed(self@, self.cap(), key@, value);
        }
        let ghost s = self@;
        let ghost k = key@;
        match self.position_of(&key) {
            Some(i) => {
                self.entries.remove(i);
                assert(self@ =~= s.remove(i as int));
            },
            None => {
                if self.entries.len() >= self.capacity {
                    self.entries.pop();
                    assert(self@ =~= s.drop_last());
                }
            },
        }
        self.entries.insert(0, (key, value));
        assert(self@ =~= after_put(s, self.cap(), k, value));
    }

    /// Looks up `key`. A present key becomes the most recently used and its
    /// value is returned; an absent key gives `None` and changes nothing.
    pub fn get(&mut self, key: &K) -> (r: Option<&V>)
        requires
            old(self).wf(),
        ensures
            final(self)@ == after_get(old(self)@, key@),
            final(self).cap() == old(self).cap(),
            final(self).wf(),
            match lookup(old(self)@, key@) {
                Some(v) => r == Some(&v),
                None => r is None,
            },
    {
        let ghost s = self@;
        match self.position_of(key) {
            Some(i) => {
                proof {
                    lemma_after_put_well_formed(s, self.cap(), key@, s[i as int].1);
                }
                let e = self.entries.remove(i);
                assert(self@ =~= s.remove(i as int));
                self.entries.insert(0, e);
                assert(self@ =~= after_get(s, key@));
                Some(&self.entries[0].1)
            },
            None => None,
        }
    }
}

impl<K: CacheKey, V: View> Cache<K, V> {
    /// The entries, most recently used first.
    pub(crate) fn entries(&self) -> (r: &[(K, V)])
        ensures
            record_views(r@) == value_views(self@),
    {
        let r = self.entries.as_slice();
        assert(record_views(r@) =~= value_views(self@));
        r
    }
}

} // verus!
