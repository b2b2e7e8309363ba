//! The mathematical model of a recency store: a sequence of (key, value)
//! entries, most recently used first, with no key twice.
use vstd::prelude::*;

verus! {

/// The keys of a store, in recency order (most recently used first).
pub open spec fn keys_of<A, B>(s: Seq<(A, B)>) -> Seq<A> {
    s.map_values(|e: (A, B)| e.0)
}

pub open spec fn has_key<A, B>(s: Seq<(A, B)>, k: A) -> bool {
    keys_of(s).contains(k)
}

/// The position of `k` in the recency order.
pub open spec fn slot_of<A, B>(s: Seq<(A, B)>, k: A) -> int {
    keys_of(s).index_of(k)
}

/// The value stored under `k`, if any.
pub open spec fn lookup<A, B>(s: Seq<(A, B)>, k: A) -> Option<B> {
    if has_key(s, k) {
        Some(s[slot_of(s, k)].1)
    } else {
        None
    }
}

/// The entries of a store with each value replaced by its view.
pub open spec fn value_views<A, V: View>(s: Seq<(A, V)>) -> Seq<(A, V::V)> {
    s.map_values(|e: (A, V)| (e.0, e.1@))
}

/// The views of keys and values of a sequence of records.
pub open spec fn record_views<K: View, V: View>(s: Seq<(K, V)>) -> Seq<(K::V, V::V)> {
    s.map_values(|e: (K, V)| (e.0@, e.1@))
}

/// A store state: keys unique, at most `cap` entries, `cap` positive.
pub open spec fn well_formed<A, B>(s: Seq<(A, B)>, cap: nat) -> bool {
    &&& keys_of(s).no_duplicates()
    &&& s.len() <= cap
    &&& cap > 0
}

/// The state after `put(k, v)`: an existing key is moved to the front with
/// its new value; a new key goes to the front, and when the store is full
/// the least recently used entry (the back) is evicted first.
pub open spec fn after_put<A, B>(s: Seq<(A, B)>, cap: nat, k: A, v: B) -> Seq<(A, B)> {
    if has_key(s, k) {
        seq![(k, v)] + s.remove(slot_of(s, k))
    } else if s.len() >= cap {
        seq![(k, v)] + s.drop_last()
    } else {
        seq![(k, v)] + s
    }
}

/// The state after `get(k)`: a present key moves to the front with its
/// value unchanged; an absent key leaves the store as it is.
pub open spec fn after_get<A, B>(s: Seq<(A, B)>, k: A) -> Seq<(A, B)> {
    if has_key(s, k) {
        seq![(k, s[slot_of(s, k)].1)] + s.remove(slot_of(s, k))
    } else {
        s
    }
}

/// The state after putting each of `items` in turn, first to last.
pub open spec fn replay<A, B>(s: Seq<(A, B)>, cap: nat, items: Seq<(A, B)>) -> Seq<(A, B)>
    decreases items.len(),
{
    if items.len() == 0 {
        s
    } else {
        let last = items.last();
        after_put(replay(s, cap, items.drop_last()), cap, last.0, last.1)
    }
}

/// In a store with unique keys, the entry at position `i` is the slot of
/// its key.
pub proof fn lemma_slot_at<A, B>(s: Seq<(A, B)>, i: int)
    requires
        keys_of(s).no_duplicates(),
        0 <= i < s.len(),
    ensures
        has_key(s, s[i].0),
        slot_of(s, s[i].0) == i,
        lookup(s, s[i].0) == Some(s[i].1),
{
    let ks = keys_of(s);
    assert(ks[i] == s[i].0);
    let j = ks.index_of(s[i].0);
    assert(0 <= j < ks.len() && ks[j] == s[i].0);
}

/// `put` keeps a store well formed.
pub proof fn lemma_after_put_well_formed<A, B>(s: Seq<(A, B)>, cap: nat, k: A, v: B)
    requires
        well_formed(s, cap),
    ensures
        well_formed(after_put(s, cap, k, v), cap),
{
    let r = after_put(s, cap, k, v);
    let ks = keys_of(s);
    let rs = keys_of(r);
    if has_key(s, k) {
        let i = slot_of(s, k);
        assert(0 <= i < ks.len() && ks[i] == k);
        assert(rs =~= seq![k] + ks.remove(i));
        assert forall|a: int, b: int| 0 <= a < rs.len() && 0 <= b < rs.len() && a != b
            implies rs[a] != rs[b] by {
            if a > 0 && b > 0 {
                let a1 = if a - 1 < i { a - 1 } else { a };
                let b1 = if b - 1 < i { b - 1 } else { b };
                assert(rs[a] == ks[a1] && rs[b] == ks[b1]);
            } else if a == 0 {
                let b1 = if b - 1 < i { b - 1 } else { b };
                assert(rs[b] == ks[b1] && b1 != i);
            } else {
                let a1 = if a - 1 < i { a - 1 } else { a };
                assert(rs[a] == ks[a1] && a1 != i);
            }
        }
    } else {
        let t = if s.len() >= cap { s.drop_last() } else { s };
        assert(rs =~= seq![k] + keys_of(t));
        assert forall|a: int, b: int| 0 <= a < rs.len() && 0 <= b < rs.len() && a != b
            implies rs[a] != rs[b] by {
            if a > 0 && b > 0 {
                assert(rs[a] == ks[a - 1] && rs[b] == ks[b - 1]);
            } else if a == 0 {
                assert(rs[b] == ks[b - 1]);
            } else {
                assert(rs[a] == ks[a - 1]);
            }
        }
    }
}

/// Viewing values commutes with `put`.
pub proof fn lemma_value_views_after_put<A, V: View>(s: Seq<(A, V)>, cap: nat, k: A, v: V)
    requires
        well_formed(s, cap),
    ensures
        value_views(after_put(s, cap, k, v)) == after_put(value_views(s), cap, k, v@),
{
    let m = value_views(s);
    assert(keys_of(m) =~= keys_of(s));
    if has_key(s, k) {
        let i = slot_of(s, k);
        assert(value_views(after_put(s, cap, k, v)) =~= seq![(k, v@)] + m.remove(i));
    } else if s.len() >= cap {
        assert(value_views(after_put(s, cap, k, v)) =~= seq![(k, v@)] + m.drop_last());
    } else {
        assert(value_views(after_put(s, cap, k, v)) =~= seq![(k, v@)] + m);
    }
}

/// Putting distinct keys into an empty store, no more than it holds, keeps
/// every one of them: the store ends with them in reverse order of putting.
pub proof fn lemma_replay_distinct<A, B>(cap: nat, items: Seq<(A, B)>)
    requires
        cap > 0,
        items.len() <= cap,
        keys_of(items).no_duplicates(),
    ensures
        replay(Seq::empty(), cap, items) == items.reverse(),
    decreases items.len(),
{
    if items.len() > 0 {
        let n = items.len();
        let d = items.drop_last();
        let ks = keys_of(items);
        assert(keys_of(d) =~= ks.drop_last());
        lemma_replay_distinct(cap, d);
        let p = d.reverse();
        let last = items.last();
        if has_key(p, last.0) {
            let j = slot_of(p, last.0);
            assert(keys_of(p)[j] == p[j].0);
            assert(p[j] == d[d.len() - 1 - j]);
            assert(ks[n - 2 - j] == ks[n - 1]);
        }
        assert(after_put(p, cap, last.0, last.1) =~= items.reverse());
    }
}

/// Putting as many distinct keys as a store holds into the empty store
/// leaves it full, with every one of those keys present.
pub proof fn lemma_fill_to_capacity<A, B>(cap: nat, items: Seq<(A, B)>)
    requires
        cap >= 1,
        items.len() == cap,
        keys_of(items).no_duplicates(),
    ensures
        replay(Seq::empty(), cap, items).len() == cap,
        forall|i: int| 0 <= i < cap ==> has_key(replay(Seq::empty(), cap, items), #[trigger] items[i].0),
{
    lemma_replay_distinct(cap, items);
    let r = items.reverse();
    assert forall|i: int| 0 <= i < cap implies has_key(r, #[trigger] items[i].0) by {
        let j = cap - 1 - i;
        assert(keys_of(r)[j] == items[i].0);
    }
}

/// When a full store takes a new key, exactly its least recently used key
/// (the last in recency order) leaves; the new key is found with its value
/// and every other key keeps its value.
pub proof fn lemma_evicts_least_recent<A, B>(s: Seq<(A, B)>, cap: nat, k: A, v: B)
    requires
        well_formed(s, cap),
        s.len() == cap,
        !has_key(s, k),
    ensures
        after_put(s, cap, k, v).len() == cap,
        !has_key(after_put(s, cap, k, v), s.last().0),
        lookup(after_put(s, cap, k, v), k) == Some(v),
        forall|j: A|
            j != s.last().0 && j != k ==> lookup(after_put(s, cap, k, v), j) == lookup(s, j),
{
    let r = after_put(s, cap, k, v);
    let n = s.len();
    lemma_after_put_well_formed(s, cap, k, v);
    assert(r[0] == (k, v));
    lemma_slot_at(r, 0);
    if has_key(r, s.last().0) {
        let i = slot_of(r, s.last().0);
        assert(keys_of(r)[i] == r[i].0);
        if i == 0 {
            assert(keys_of(s)[n - 1] == k);
        } else {
            assert(r[i] == s[i - 1]);
            assert(keys_of(s)[i - 1] == keys_of(s)[n - 1]);
        }
    }
    assert forall|j: A| j != s.last().0 && j != k implies lookup(r, j) == lookup(s, j) by {
        if has_key(s, j) {
            let i = slot_of(s, j);
            assert(keys_of(s)[i] == s[i].0);
            assert(r[i + 1] == s[i]);
            lemma_slot_at(r, i + 1);
        } else if has_key(r, j) {
            let i = slot_of(r, j);
            assert(keys_of(r)[i] == r[i].0);
            assert(r[i] == s[i - 1]);
            assert(keys_of(s)[i - 1] == j);
        }
    }
}

/// `put` on a present key keeps the size, makes the key the most recently
/// used with the new value, and leaves every other key's value as it was.
pub proof fn lemma_put_existing<A, B>(s: Seq<(A, B)>, cap: nat, k: A, v: B)
    requires
        well_formed(s, cap),
        has_key(s, k),
    ensures
        after_put(s, cap, k, v).len() == s.len(),
        after_put(s, cap, k, v)[0] == (k, v),
        lookup(after_put(s, cap, k, v), k) == Some(v),
        forall|j: A| j != k ==> lookup(after_put(s, cap, k, v), j) == lookup(s, j),
{
    let r = after_put(s, cap, k, v);
    let c = slot_of(s, k);
    assert(keys_of(s)[c] == s[c].0);
    lemma_after_put_well_formed(s, cap, k, v);
    lemma_slot_at(r, 0);
    assert forall|j: A| j != k implies lookup(r, j) == lookup(s, j) by {
        if has_key(s, j) {
            let i = slot_of(s, j);
            assert(keys_of(s)[i] == s[i].0);
            let i2 = if i < c { i + 1 } else { i };
            assert(r[i2] == s[i]);
            lemma_slot_at(r, i2);
        } else if has_key(r, j) {
            let i = slot_of(r, j);
            assert(keys_of(r)[i] == r[i].0);
            let i1 = if i - 1 < c { i - 1 } else { i };
            assert(r[i] == s[i1]);
            assert(keys_of(s)[i1] == j);
        }
    }
}

/// Putting new distinct keys into a full store pushes out its entries from
/// the back, one for each key put.
pub proof fn lemma_replay_fresh_full<A, B>(t: Seq<(A, B)>, cap: nat, fresh: Seq<(A, B)>)
    requires
        cap > 0,
        t.len() == cap,
        fresh.len() <= cap,
        keys_of(fresh).no_duplicates(),
        forall|i: int| 0 <= i < fresh.len() ==> !has_key(t, #[trigger] fresh[i].0),
    ensures
        replay(t, cap, fresh) == fresh.reverse() + t.take(cap - fresh.len()),
    decreases fresh.len(),
{
    if fresh.len() > 0 {
        let m = fresh.len();
        let d = fresh.drop_last();
        let ks = keys_of(fresh);
        assert(keys_of(d) =~= ks.drop_last());
        assert forall|i: int| 0 <= i < d.len() implies !has_key(t, #[trigger] d[i].0) by {
            assert(d[i] == fresh[i]);
        }
        lemma_replay_fresh_full(t, cap, d);
        let p = d.reverse() + t.take(cap - m + 1);
        let last = fresh.last();
        assert(!has_key(t, fresh[m - 1].0));
        if has_key(p, last.0) {
            let j = slot_of(p, last.0);
            assert(keys_of(p)[j] == p[j].0);
            if j < d.len() {
                assert(p[j] == d[d.len() - 1 - j]);
                assert(ks[m - 2 - j] == ks[m - 1]);
            } else {
                assert(p[j] == t[j - d.len()]);
                assert(keys_of(t)[j - d.len()] == last.0);
            }
        }
        assert(after_put(p, cap, last.0, last.1) =~= fresh.reverse() + t.take(cap - m));
    } else {
        assert(fresh.reverse() + t.take(cap as int) =~= t);
    }
}

/// After `get` on a present key `x` of a full store, putting `cap - 1` new
/// distinct keys evicts every other key first: `x` stays, with its value.
pub proof fn lemma_touched_key_outlives_others<A, B>(s: Seq<(A, B)>, cap: nat, x: A, fresh: Seq<(A, B)>)
    requires
        well_formed(s, cap),
        s.len() == cap,
        has_key(s, x),
        fresh.len() == cap - 1,
        keys_of(fresh).no_duplicates(),
        forall|i: int| 0 <= i < fresh.len() ==> !has_key(s, #[trigger] fresh[i].0),
    ensures
        lookup(replay(after_get(s, x), cap, fresh), x) == lookup(s, x),
        forall|j: A| has_key(s, j) && j != x ==> !has_key(replay(after_get(s, x), cap, fresh), j),
{
    let c = slot_of(s, x);
    assert(keys_of(s)[c] == s[c].0);
    let t = after_get(s, x);
    assert(t == after_put(s, cap, x, s[c].1));
    lemma_after_put_well_formed(s, cap, x, s[c].1);
    assert forall|i: int| 0 <= i < fresh.len() implies !has_key(t, #[trigger] fresh[i].0) by {
        if has_key(t, fresh[i].0) {
            let j = slot_of(t, fresh[i].0);
            assert(keys_of(t)[j] == t[j].0);
            if j == 0 {
                assert(keys_of(s)[c] == fresh[i].0);
            } else {
                let j1 = if j - 1 < c { j - 1 } else { j };
                assert(t[j] == s[j1]);
                assert(keys_of(s)[j1] == fresh[i].0);
            }
        }
    }
    lemma_replay_fresh_full(t, cap, fresh);
    let r = replay(t, cap, fresh);
    let m = fresh.len() as int;
    assert(r == fresh.reverse() + t.take(1));
    assert(r[m] == (x, s[c].1));
    assert(keys_of(r).no_duplicates()) by {
        assert forall|a: int, b: int| 0 <= a < r.len() && 0 <= b < r.len() && a != b
            implies keys_of(r)[a] != keys_of(r)[b] by {
            if a < m && b < m {
                assert(r[a] == fresh[m - 1 - a] && r[b] == fresh[m - 1 - b]);
                assert(keys_of(fresh)[m - 1 - a] != keys_of(fresh)[m - 1 - b]);
            } else if a < m {
                assert(r[a] == fresh[m - 1 - a]);
                assert(!has_key(s, fresh[m - 1 - a].0));
                assert(keys_of(s)[c] == x);
            } else if b < m {
                assert(r[b] == fresh[m - 1 - b]);
                assert(!has_key(s, fresh[m - 1 - b].0));
                assert(keys_of(s)[c] == x);
            }
        }
    }
    lemma_slot_at(r, m);
    lemma_slot_at(s, c);
    assert forall|j: A| has_key(s, j) && j != x implies !has_key(r, j) by {
        if has_key(r, j) {
            let i = slot_of(r, j);
            assert(keys_of(r)[i] == r[i].0);
            if i < m {
                assert(r[i] == fresh[m - 1 - i]);
                assert(!has_key(s, fresh[m - 1 - i].0));
            }
        }
    }
}

/// Reversing a store with unique keys changes no lookup.
pub proof fn lemma_lookup_reverse<A, B>(s: Seq<(A, B)>)
    requires
        keys_of(s).no_duplicates(),
    ensures
        forall|k: A| lookup(s.reverse(), k) == lookup(s, k),
{
    let r = s.reverse();
    let n = s.len();
    assert forall|a: int, b: int| 0 <= a < r.len() && 0 <= b < r.len() && a != b
        implies keys_of(r)[a] != keys_of(r)[b] by {
        assert(r[a] == s[n - 1 - a] && r[b] == s[n - 1 - b]);
        assert(keys_of(s)[n - 1 - a] != keys_of(s)[n - 1 - b]);
    }
    assert forall|k: A| lookup(r, k) == lookup(s, k) by {
        if has_key(s, k) {
            let i = slot_of(s, k);
            assert(keys_of(s)[i] == s[i].0);
            assert(r[n - 1 - i] == s[i]);
            lemma_slot_at(s, i);
            lemma_slot_at(r, n - 1 - i);
        } else if has_key(r, k) {
            let i = slot_of(r, k);
            assert(keys_of(r)[i] == r[i].0);
            assert(r[i] == s[n - 1 - i]);
            assert(keys_of(s)[n - 1 - i] == k);
        }
    }
}

} // verus!
