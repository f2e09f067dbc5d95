use vstd::prelude::*;

verus! {

/// True when no key occurs twice among `entries`.
pub open spec fn distinct_keys<K, V>(entries: Seq<(K, V)>) -> bool {
    forall|i: int, j: int|
        0 <= i < entries.len() && 0 <= j < entries.len() && i != j ==> entries[i].0 != entries[j].0
}

/// True when some entry has key `key`.
pub open spec fn has_key<K, V>(entries: Seq<(K, V)>, key: K) -> bool {
    exists|i: int| 0 <= i < entries.len() && entries[i].0 == key
}

/// The position of the entry with key `key` (meaningful when [`has_key`] holds).
pub open spec fn key_pos<K, V>(entries: Seq<(K, V)>, key: K) -> int {
    choose|i: int| 0 <= i < entries.len() && entries[i].0 == key
}

/// The value stored under `key`, if any.
pub open spec fn lookup<K, V>(entries: Seq<(K, V)>, key: K) -> Option<V> {
    if has_key(entries, key) {
        Some(entries[key_pos(entries, key)].1)
    } else {
        None
    }
}

/// The entry at position `pos` moved to the front, the others keeping their order.
pub open spec fn to_front<K, V>(entries: Seq<(K, V)>, pos: int) -> Seq<(K, V)> {
    seq![entries[pos]] + entries.remove(pos)
}

/// The entries, most recently used first, after a lookup of `key`: a hit
/// moves its entry to the front, a miss changes nothing.
pub open spec fn after_get<K, V>(entries: Seq<(K, V)>, key: K) -> Seq<(K, V)> {
    if has_key(entries, key) {
        to_front(entries, key_pos(entries, key))
    } else {
        entries
    }
}

/// The entries, most recently used first, after storing `value` under `key`
/// in a cache holding at most `capacity` entries: an existing entry for `key`
/// is replaced and moved to the front; otherwise the new entry goes in front,
/// and when the cache is full the least recently used (last) entry leaves.
pub open spec fn after_put<K, V>(entries: Seq<(K, V)>, capacity: nat, key: K, value: V) -> Seq<
    (K, V),
> {
    if has_key(entries, key) {
        seq![(key, value)] + entries.remove(key_pos(entries, key))
    } else if entries.len() >= capacity {
        seq![(key, value)] + entries.drop_last()
    } else {
        seq![(key, value)] + entries
    }
}


/// With distinct keys, the entry at `p` is the one found for its key.
pub proof fn lemma_key_pos<K, V>(entries: Seq<(K, V)>, p: int)
    requires
        distinct_keys(entries),
        0 <= p < entries.len(),
    ensures
        has_key(entries, entries[p].0),
        key_pos(entries, entries[p].0) == p,
        lookup(entries, entries[p].0) == Some(entries[p].1),
{
    let k = entries[p].0;
    assert(has_key(entries, k));
    let q = key_pos(entries, k);
    assert(entries[q].0 == k);
}

/// Read after write: right after `value` is stored under `key`, a lookup of
/// `key` finds `value`, and it is the most recently used entry.
pub proof fn law_get_after_put<K, V>(entries: Seq<(K, V)>, capacity: nat, key: K, value: V)
    requires
        distinct_keys(entries),
        entries.len() <= capacity,
        capacity > 0,
    ensures
        lookup(after_put(entries, capacity, key, value), key) == Some(value),
        after_put(entries, capacity, key, value)[0] == (key, value),
{
    lemma_put_keeps_invariants(entries, capacity, key, value);
    lemma_key_pos(after_put(entries, capacity, key, value), 0);
}

/// Every stored state stays valid: storing keeps the keys distinct and never
/// holds more than `capacity` entries; the count grows by one exactly when
/// the key is new and the cache is not full.
pub proof fn lemma_put_keeps_invariants<K, V>(entries: Seq<(K, V)>, capacity: nat, key: K, value: V)
    requires
        distinct_keys(entries),
        entries.len() <= capacity,
        capacity > 0,
    ensures
        distinct_keys(after_put(entries, capacity, key, value)),
        after_put(entries, capacity, key, value).len() <= capacity,
        after_put(entries, capacity, key, value).len() >= 1,
        after_put(entries, capacity, key, value).len() == if has_key(entries, key)
            || entries.len() == capacity {
            entries.len()
        } else {
            entries.len() + 1
        },
{
    let e2 = after_put(entries, capacity, key, value);
    if has_key(entries, key) {
        let p = key_pos(entries, key);
        assert(entries[p].0 == key);
        let rest = entries.remove(p);
        assert forall|i: int, j: int| 0 <= i < e2.len() && 0 <= j < e2.len() && i != j implies e2[i].0
            != e2[j].0 by {
            let i0 = if i <= p { i - 1 } else { i };
            let j0 = if j <= p { j - 1 } else { j };
            if i > 0 {
                assert(e2[i] == entries[i0]);
            }
            if j > 0 {
                assert(e2[j] == entries[j0]);
            }
        }
    } else {
        let rest = if entries.len() >= capacity {
            entries.drop_last()
        } else {
            entries
        };
        assert forall|i: int, j: int| 0 <= i < e2.len() && 0 <= j < e2.len() && i != j implies e2[i].0
            != e2[j].0 by {
            if i > 0 {
                assert(e2[i] == entries[i - 1]);
            }
            if j > 0 {
                assert(e2[j] == entries[j - 1]);
            }
            if i == 0 && e2[j].0 == key {
                assert(has_key(entries, key));
            }
            if j == 0 && e2[i].0 == key {
                assert(has_key(entries, key));
            }
        }
    }
}

/// A lookup changes only the order: the same keys keep the same values,
/// and the key looked up, when present, becomes the most recently used.
pub proof fn law_get_keeps_contents<K, V>(entries: Seq<(K, V)>, key: K, other: K)
    requires
        distinct_keys(entries),
    ensures
        lookup(after_get(entries, key), other) == lookup(entries, other),
        after_get(entries, key).len() == entries.len(),
        distinct_keys(after_get(entries, key)),
        has_key(entries, key) ==> after_get(entries, key)[0] == (key, lookup(entries, key)->0),
{
    if has_key(entries, key) {
        let p = key_pos(entries, key);
        assert(entries[p].0 == key);
        let e2 = after_get(entries, key);
        assert forall|i: int, j: int| 0 <= i < e2.len() && 0 <= j < e2.len() && i != j implies e2[i].0
            != e2[j].0 by {
            let i0 = if i == 0 { p } else if i <= p { i - 1 } else { i };
            let j0 = if j == 0 { p } else if j <= p { j - 1 } else { j };
            assert(e2[i] == entries[i0] && e2[j] == entries[j0]);
        }
        if has_key(entries, other) {
            let q = key_pos(entries, other);
            assert(entries[q].0 == other);
            let q2 = if q == p { 0 } else if q < p { q + 1 } else { q };
            assert(e2[q2] == entries[q]);
            lemma_key_pos(e2, q2);
        } else {
            if has_key(e2, other) {
                let r = key_pos(e2, other);
                let r0 = if r == 0 { p } else if r <= p { r - 1 } else { r };
                assert(e2[r] == entries[r0]);
                assert(has_key(entries, other));
            }
        }
    }
}

/// Eviction: storing a new key in a full cache removes exactly the least
/// recently used entry; every other entry keeps its value.
pub proof fn law_put_evicts_least_recent<K, V>(
    entries: Seq<(K, V)>,
    capacity: nat,
    key: K,
    value: V,
    other: K,
)
    requires
        distinct_keys(entries),
        entries.len() == capacity,
        capacity > 0,
        !has_key(entries, key),
        other != key,
    ensures
        !has_key(after_put(entries, capacity, key, value), entries.last().0),
        other != entries.last().0 ==> lookup(after_put(entries, capacity, key, value), other)
            == lookup(entries, other),
        after_put(entries, capacity, key, value).len() == capacity,
{
    let e2 = after_put(entries, capacity, key, value);
    let n = entries.len();
    lemma_put_keeps_invariants(entries, capacity, key, value);
    if has_key(e2, entries.last().0) {
        let r = key_pos(e2, entries.last().0);
        assert(e2[r].0 == entries.last().0);
        if r > 0 {
            assert(e2[r] == entries[r - 1]);
            assert(entries[r - 1].0 != entries[n - 1].0);
        } else {
            assert(has_key(entries, key));
        }
    }
    if other != entries.last().0 {
        if has_key(entries, other) {
            let q = key_pos(entries, other);
            assert(entries[q].0 == other);
            assert(q != n - 1);
            assert(e2[q + 1] == entries[q]);
            lemma_key_pos(e2, q + 1);
        } else if has_key(e2, other) {
            let r = key_pos(e2, other);
            assert(e2[r].0 == other);
            assert(r > 0);
            assert(e2[r] == entries[r - 1]);
            assert(has_key(entries, other));
        }
    }
}

/// Storing under one key leaves the value of any other present key as it
/// was, unless that key was the least recently used one of a full cache.
pub proof fn law_put_keeps_other_values<K, V>(
    entries: Seq<(K, V)>,
    capacity: nat,
    key: K,
    value: V,
    other: K,
)
    requires
        distinct_keys(entries),
        entries.len() <= capacity,
        capacity > 0,
        other != key,
        has_key(entries, other),
        has_key(entries, key) || entries.len() < capacity || other != entries.last().0,
    ensures
        lookup(after_put(entries, capacity, key, value), other) == lookup(entries, other),
{
    let e2 = after_put(entries, capacity, key, value);
    lemma_put_keeps_invariants(entries, capacity, key, value);
    let q = key_pos(entries, other);
    assert(entries[q].0 == other);
    if has_key(entries, key) {
        let p = key_pos(entries, key);
        assert(entries[p].0 == key);
        let q2 = if q < p { q + 1 } else { q };
        assert(e2[q2] == entries[q]);
        lemma_key_pos(e2, q2);
    } else {
        assert(e2[q + 1] == entries[q]);
        lemma_key_pos(e2, q + 1);
    }
}

/// A fixed-capacity cache that evicts the least recently used entry once full.
///
/// Its state is modelled by [`Cache::entries`]: the stored key/value pairs,
/// most recently used first, no key twice, never more than
/// [`Cache::capacity`] of them.
pub trait Cache<K, V>: Sized {
    /// The internal consistency of the cache, kept by every operation.
    spec fn wf(&self) -> bool;

    /// The stored entries, most recently used first.
    spec fn entries(&self) -> Seq<(K, V)>;

    /// The most entries the cache holds.
    spec fn capacity(&self) -> nat;

    /// What the design asks of its key type (a lawful `Eq`, `Hash` and `Clone`).
    spec fn accepts_keys() -> bool;

    /// A consistent cache holds no key twice and at most `capacity` entries,
    /// and its capacity is positive.
    proof fn lemma_wf_bounded(&self)
        requires
            self.wf(),
        ensures
            self.entries().len() <= self.capacity(),
            distinct_keys(self.entries()),
            self.capacity() > 0,
    ;

    /// Creates an empty cache holding at most `capacity` entries.
    fn new(capacity: usize) -> (cache: Self)
        requires
            capacity > 0,
            Self::accepts_keys(),
        ensures
            cache.wf(),
            cache.entries() == Seq::<(K, V)>::empty(),
            cache.capacity() == capacity,
            distinct_keys(cache.entries()),
    ;

    /// Returns the value for `key` and marks it most recently used, or
    /// `None` if `key` isn't present.
    fn get(&mut self, key: &K) -> (found: Option<&V>)
        requires
            old(self).wf(),
        ensures
            found matches Some(v) ==> lookup(old(self).entries(), *key) == Some(*v),
            final(self).wf(),
            final(self).capacity() == old(self).capacity(),
            final(self).entries() == after_get(old(self).entries(), *key),
            distinct_keys(final(self).entries()),
            final(self).entries().len() <= final(self).capacity(),
            found is Some <==> has_key(old(self).entries(), *key),
    ;

    /// Inserts or updates the value for `key` and marks it most recently
    /// used. If the cache is at capacity, evicts the least recently used
    /// entry first.
    fn put(&mut self, key: K, value: V)
        requires
            old(self).wf(),
        ensures
            final(self).wf(),
            final(self).capacity() == old(self).capacity(),
            final(self).entries() == after_put(old(self).entries(), old(self).capacity(), key, value),
            distinct_keys(final(self).entries()),
            final(self).entries().len() <= final(self).capacity(),
    ;
}

} // verus!
