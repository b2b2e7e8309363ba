//! The recency store mirrored to a text snapshot. The store computes the
//! snapshot text after each change and reads one back; writing and reading
//! the file at `file_path` is left to the caller.
use vstd::prelude::*;

use crate::cache_lru::Cache;
use crate::key::CacheKey;
use crate::model::{
    after_get, after_put, keys_of, lemma_lookup_reverse, lemma_replay_distinct,
    lemma_value_views_after_put, lookup, record_views, replay, value_views, well_formed,
};
use crate::snapshot::{
    lemma_records_round_trip, parse_records, read_records, render, render_records, storable,
    LoadError,
};
use crate::text::{chars_of, TextForm};

verus! {

/// A recency store with a backing file: every `put` yields the snapshot to
/// write there, and `load_snapshot` replays one read from there.
#[derive(Debug)]
pub struct PersistentCache<K, V> {
    cache: Cache<K, V>,
    file_path: String,
}

impl<K: CacheKey + TextForm, V: TextForm> View for PersistentCache<K, V> {
    type V = Seq<(<K as View>::V, V)>;

    closed spec fn view(&self) -> Seq<(<K as View>::V, V)> {
        self.cache@
    }
}

impl<K: CacheKey + TextForm, V: TextForm> PersistentCache<K, V> {
    /// The maximum number of entries.
    pub closed spec fn cap(&self) -> nat {
        self.cache.cap()
    }

    /// The path of the backing file.
    pub closed spec fn path(&self) -> Seq<char> {
        self.file_path@
    }

    /// Keys unique, at most `cap()` entries, `cap()` positive.
    pub open spec fn wf(&self) -> bool {
        well_formed(self@, self.cap())
    }

    /// The snapshot of the current state: its lines, most recently used first.
    pub open spec fn snapshot_text(&self) -> Seq<char> {
        render::<K, V>(value_views(self@))
    }

    /// Creates an empty store of at most `capacity` entries backed by the
    /// file at `file_path`, which need not exist.
    pub fn new(capacity: usize, file_path: &str) -> (r: Self)
        requires
            capacity > 0,
        ensures
            r@ == Seq::<(<K as View>::V, V)>::empty(),
            r.cap() == capacity,
            r.path() == file_path@,
            r.wf(),
    {
        PersistentCache { cache: Cache::new(capacity), file_path: file_path.to_owned() }
    }

    /// The path of the backing file.
    pub fn file_path(&self) -> (r: &str)
        ensures
            r@ == self.path(),
    {
        self.file_path.as_str()
    }

    /// The snapshot text of the current state.
    pub fn snapshot(&self) -> (r: String)
        requires
            self.wf(),
        ensures
            r@ == self.snapshot_text(),
    {
        render_records(self.cache.entries())
    }

    /// Stores `value` under `key` as `Cache::put` does, and returns the
    /// snapshot of the new state, to be written to the backing file.
    pub fn put(&mut self, key: K, value: V) -> (r: String)
        requires
            old(self).wf(),
        ensures
            final(self)@ == after_put(old(self)@, old(self).cap(), key@, value),
            final(self).cap() == old(self).cap(),
            final(self).path() == old(self).path(),
            final(self).wf(),
            r@ == final(self).snapshot_text(),
    {
        self.cache.put(key, value);
        self.snapshot()
    }

    /// Looks up `key` as `Cache::get` does. The snapshot is not affected.
    pub fn get(&mut self, key: &K) -> (r: Option<&V>)
        requires
            old(self).wf(),
        ensures
            final(self)@ == after_get(old(self)@, key@),
            final(self).cap() == old(self).cap(),
            final(self).path() == old(self).path(),
            final(self).wf(),
            match lookup(old(self)@, key@) {
                Some(v) => r == Some(&v),
                None => r is None,
            },
    {
        self.cache.get(key)
    }

    /// Reads snapshot text `text` and puts its records in file order, so
    /// that the first line ends least recently used. Entries already held
    /// stay unless evicted or overwritten. When any line is bad, nothing
    /// is put and the first bad line is reported.
    pub fn load_snapshot(&mut self, text: &str) -> (r: Result<(), LoadError>)
        requires
            old(self).wf(),
        ensures
            final(self).cap() == old(self).cap(),
            final(self).path() == old(self).path(),
            final(self).wf(),
            match parse_records::<K, V>(text@) {
                Ok(recs) => r is Ok && value_views(final(self)@) == replay(
                    value_views(old(self)@),
                    old(self).cap(),
                    recs,
                ),
                Err((n, f)) => r == Err::<(), LoadError>(LoadError { line: n as usize, fault: f })
                    && final(self)@ == old(self)@,
            },
    {
        let chars = chars_of(text);
        let recs = match read_records::<K, V>(chars.as_slice()) {
            Ok(recs) => recs,
            Err(e) => {
                return Err(e);
            },
        };
        let ghost start = value_views(self@);
        let ghost all = record_views(recs@);
        let ghost items = recs@;
        let ghost mut done: Seq<(K, V)> = Seq::empty();
        for kv in it: recs.into_iter()
            invariant
                it.seq() == items,
                done == it.history(),
                self.wf(),
                self.cap() == old(self).cap(),
                self.path() == old(self).path(),
                value_views(self@) == replay(start, self.cap(), record_views(it.history())),
        {
            let ghost h = record_views(it.history());
            proof {
                done = done.push(kv);
                lemma_value_views_after_put(self@, self.cap(), kv.0@, kv.1);
            }
            self.cache.put(kv.0, kv.1);
            assert(h.push((kv.0@, kv.1@)).drop_last() =~= h);
            assert(record_views(it.history().push(kv)) =~= h.push((kv.0@, kv.1@)));
        }
        assert(done =~= items);
        assert(value_views(self@) == replay(start, self.cap(), all));
        Ok(())
    }
}

/// Saving a store whose records all survive the line format gives a snapshot
/// that reads back as exactly its records; loading that snapshot into an
/// empty store of the same capacity gives every key the value it had.
pub proof fn lemma_save_load_round_trip<K: CacheKey + TextForm, V: TextForm>(
    store: PersistentCache<K, V>,
)
    requires
        store.wf(),
        forall|i: int|
            0 <= i < store@.len() ==> storable::<K, V>(#[trigger] value_views(store@)[i]),
    ensures
        parse_records::<K, V>(store.snapshot_text()) == Ok::<
            Seq<(<K as View>::V, V::V)>,
            (nat, crate::snapshot::LineFault),
        >(value_views(store@)),
        forall|k: <K as View>::V|
            lookup(replay(Seq::empty(), store.cap(), value_views(store@)), k) == lookup(
                value_views(store@),
                k,
            ),
{
    let s = value_views(store@);
    assert(keys_of(s) =~= keys_of(store@));
    lemma_records_round_trip::<K, V>(s);
    lemma_replay_distinct(store.cap(), s);
    lemma_lookup_reverse(s);
}

} // verus!
