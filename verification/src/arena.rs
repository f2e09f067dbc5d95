//! Vec arena + indices instead of pointers.
use crate::cache::{after_get, after_put, distinct_keys, has_key, key_pos, lookup, Cache};
use std::collections::HashMap;
use std::hash::Hash;
use vstd::prelude::*;
use vstd::pervasive::strictly_cloned;
use vstd::std_specs::hash::obeys_key_model;

verus! {

broadcast use vstd::std_specs::hash::group_hash_axioms;

/// What the arena asks of its key type: lawful `Eq`/`Hash` (a hash-table
/// key) and a `clone` that gives back an equal key.
pub open spec fn key_model<K: Clone>() -> bool {
    &&& obeys_key_model::<K>()
    &&& forall|a: K, b: K| #[trigger] strictly_cloned(a, b) ==> a == b
}

struct Node<K, V> {
    key: K,
    value: V,
    next: Option<usize>,
    prev: Option<usize>,
}

impl<K, V> Node<K, V> {
    fn new(key: K, value: V) -> (node: Self)
        ensures
            node.key == key,
            node.value == value,
            node.next is None,
            node.prev is None,
    {
        Self { key, value, next: None, prev: None }
    }
}

/// LRU cache backed by a `Vec` arena, with nodes linked via `usize`
/// indices instead of pointers. Eviction reuses the freed slot in place.
pub struct LruCache<K, V> {
    capacity: usize,
    map: HashMap<K, usize>,
    vec: Vec<Option<Node<K, V>>>,
    head: Option<usize>,
    tail: Option<usize>,
    /// The occupied slots, from the most to the least recently used.
    order: Ghost<Seq<usize>>,
    /// For each slot, its position in `order`.
    rank: Ghost<Seq<int>>,
}

/// Two arenas hold the same keys and values in the same slots (links aside).
spec fn same_payload<K, V>(a: Seq<Option<Node<K, V>>>, b: Seq<Option<Node<K, V>>>) -> bool {
    &&& a.len() == b.len()
    &&& forall|s: int|
        0 <= s < a.len() ==> (#[trigger] a[s] is Some <==> b[s] is Some) && (a[s] is Some ==> (
        a[s]->0.key == b[s]->0.key && a[s]->0.value == b[s]->0.value))
}

/// The element of `o` before position `p`, if any.
spec fn before(o: Seq<usize>, p: int) -> Option<usize> {
    if p == 0 {
        None
    } else {
        Some(o[p - 1])
    }
}

/// The element of `o` after position `p`, if any.
spec fn after(o: Seq<usize>, p: int) -> Option<usize> {
    if p + 1 == o.len() {
        None
    } else {
        Some(o[p + 1])
    }
}

spec fn first_of(o: Seq<usize>) -> Option<usize> {
    if o.len() == 0 {
        None
    } else {
        Some(o[0])
    }
}

spec fn last_of(o: Seq<usize>) -> Option<usize> {
    if o.len() == 0 {
        None
    } else {
        Some(o.last())
    }
}

impl<K, V> LruCache<K, V> {
    spec fn slot(&self, s: int) -> Node<K, V> {
        self.vec@[s]->0
    }

    /// The slots of `o` are live, distinct, and linked to each other in that order.
    spec fn links(&self, o: Seq<usize>) -> bool {
        &&& o.no_duplicates()
        &&& forall|p: int|
            0 <= p < o.len() ==> {
                &&& #[trigger] o[p] < self.vec@.len()
                &&& self.vec@[o[p] as int] is Some
                &&& self.slot(o[p] as int).prev == before(o, p)
                &&& self.slot(o[p] as int).next == after(o, p)
            }
    }

    spec fn ends(&self, o: Seq<usize>) -> bool {
        &&& self.head == first_of(o)
        &&& self.tail == last_of(o)
    }

    /// `order` and `rank` are inverse permutations of the slots.
    spec fn ranked(&self) -> bool {
        ranked_seqs(self.order@, self.rank@, self.vec@.len())
    }

    /// The map sends each stored key to the slot that holds it.
    spec fn indexed(&self) -> bool {
        let n = self.vec@.len();
        &&& forall|k: K| #[trigger]
            self.map@.contains_key(k) ==> 0 <= self.map@[k] < n && self.vec@[self.map@[k] as int] is Some
                && self.slot(self.map@[k] as int).key == k
        &&& forall|s: int|
            0 <= s < n ==> #[trigger] self.vec@[s] is Some && self.map@.contains_key(self.slot(s).key)
                && self.map@[self.slot(s).key] == s
    }
}

impl<K: Clone, V> LruCache<K, V> {
    spec fn inv(&self) -> bool {
        &&& key_model::<K>()
        &&& 0 < self.capacity
        &&& self.vec@.len() <= self.capacity
        &&& self.ranked()
        &&& self.links(self.order@)
        &&& self.ends(self.order@)
        &&& self.indexed()
    }
}

impl<K, V> LruCache<K, V> where K: Hash + Eq + Clone {
    fn push_front(&mut self, node_index: usize, Ghost(o): Ghost<Seq<usize>>)
        requires
            old(self).links(o),
            old(self).ends(o),
            node_index < old(self).vec@.len(),
            old(self).vec@[node_index as int] is Some,
            !o.contains(node_index),
        ensures
            final(self).links(seq![node_index] + o),
            final(self).ends(seq![node_index] + o),
            same_payload(final(self).vec@, old(self).vec@),
            final(self).map@ == old(self).map@,
            final(self).capacity == old(self).capacity,
            final(self).order == old(self).order,
            final(self).rank == old(self).rank,
    {
        let ghost o2 = seq![node_index] + o;
        if let Some(head_index) = self.head {
            self.vec[head_index].as_mut().expect("self.head must point to a live node").prev = Some(
                node_index,
            );
        }
        let old_head = self.head.take();
        self.vec[node_index].as_mut().expect("node_index must point to a live node").next =
            old_head;
        self.vec[node_index].as_mut().expect("node_index must point to a live node").prev = None;
        self.head = Some(node_index);
        if self.tail.is_none() {
            self.tail = Some(node_index);
        }
        assert forall|p: int| 0 <= p < o2.len() implies {
            &&& #[trigger] o2[p] < self.vec@.len()
            &&& self.vec@[o2[p] as int] is Some
            &&& self.slot(o2[p] as int).prev == before(o2, p)
            &&& self.slot(o2[p] as int).next == after(o2, p)
        } by {
            if p > 0 {
                assert(o2[p] == o[p - 1]);
                assert(old(self).slot(o[p - 1] as int).prev == before(o, p - 1));
                assert(old(self).slot(o[p - 1] as int).next == after(o, p - 1));
            }
        }
        assert(o2.no_duplicates()) by {
            assert forall|i: int, j: int| 0 <= i < j < o2.len() implies o2[i] != o2[j] by {
                if i == 0 {
                    assert(o2[j] == o[j - 1]);
                } else {
                    assert(o2[i] == o[i - 1] && o2[j] == o[j - 1]);
                }
            }
        }
    }
}


/// `r` after the slot at position `p` of the order moved to the front.
spec fn rank_after_front(r: Seq<int>, p: int) -> Seq<int> {
    Seq::new(r.len(), |s: int| if r[s] == p { 0 } else if r[s] < p { r[s] + 1 } else { r[s] })
}

/// `o` with the element at position `p` moved to the front.
spec fn order_after_front(o: Seq<usize>, p: int) -> Seq<usize> {
    seq![o[p]] + o.remove(p)
}

impl<K, V> LruCache<K, V> where K: Hash + Eq + Clone {
    /// Unlinks the node in slot `index` (at position `p` of the order) and
    /// links it back in at the front.
    #[verifier::rlimit(40)]
    fn move_to_front(&mut self, index: usize, Ghost(p): Ghost<int>)
        requires
            old(self).inv(),
            0 <= p < old(self).order@.len(),
            old(self).order@[p] == index,
        ensures
            final(self).inv(),
            final(self).order@ == order_after_front(old(self).order@, p),
            final(self).rank@ == rank_after_front(old(self).rank@, p),
            same_payload(final(self).vec@, old(self).vec@),
            final(self).map@ == old(self).map@,
            final(self).capacity == old(self).capacity,
    {
        let ghost o = self.order@;
        let ghost o2 = o.remove(p);
        let node = self.vec[index].as_ref().expect("index must point to a live node");
        let prev_link = node.prev;
        let next_link = node.next;
        proof {
            assert(o[p] == index);
        }
        match (prev_link, next_link) {
            (Some(prev), Some(next)) => {
                assert(prev == o[p - 1] && next == o[p + 1]);
                self.vec[prev].as_mut().expect("prev index must point to a live node").next = Some(
                    next,
                );
                self.vec[next].as_mut().expect("next index must point to a live node").prev = Some(
                    prev,
                );
                proof {
                    self.lemma_unlinked(old(self), o, p);
                }
                self.push_front(index, Ghost(o2));
            },
            (Some(prev), None) => {
                assert(prev == o[p - 1]);
                self.vec[prev].as_mut().expect("prev index must point to a live node").next = None;
                self.tail = Some(prev);
                proof {
                    self.lemma_unlinked(old(self), o, p);
                }
                self.push_front(index, Ghost(o2));
            },
            (None, _) => {
                assert(p == 0);
                assert(order_after_front(o, p) =~= o);
            },
        }
        proof {
            lemma_front_ranked(o, self.rank@, p, self.vec@.len());
            self.order = Ghost(order_after_front(o, p));
            self.rank = Ghost(rank_after_front(self.rank@, p));
            self.lemma_indexed_payload(old(self));
        }
    }
}

impl<K, V> LruCache<K, V> {
    /// After the node at position `p` of `o` has been spliced out of the list,
    /// the rest of `o` is still linked, and the list's ends are right.
    #[verifier::rlimit(40)]
    proof fn lemma_unlinked(&self, old_self: &Self, o: Seq<usize>, p: int)
        requires
            old_self.links(o),
            old_self.ends(o),
            0 < p < o.len(),
            same_payload(self.vec@, old_self.vec@),
            self.head == old_self.head,
            p + 1 < o.len() ==> self.tail == old_self.tail,
            p + 1 == o.len() ==> self.tail == Some(o[p - 1]),
            forall|s: int|
                0 <= s < self.vec@.len() && s != o[p - 1] && (p + 1 < o.len() ==> s != o[p + 1])
                    ==> #[trigger] self.vec@[s] == old_self.vec@[s],
            self.slot(o[p - 1] as int).prev == old_self.slot(o[p - 1] as int).prev,
            self.slot(o[p - 1] as int).next == after(o, p),
            p + 1 < o.len() ==> self.slot(o[p + 1] as int).next == old_self.slot(
                o[p + 1] as int,
            ).next,
            p + 1 < o.len() ==> self.slot(o[p + 1] as int).prev == Some(o[p - 1]),
        ensures
            self.links(o.remove(p)),
            self.ends(o.remove(p)),
            !o.remove(p).contains(o[p]),
    {
        let o2 = o.remove(p);
        assert forall|q: int| 0 <= q < o2.len() implies {
            &&& #[trigger] o2[q] < self.vec@.len()
            &&& self.vec@[o2[q] as int] is Some
            &&& self.slot(o2[q] as int).prev == before(o2, q)
            &&& self.slot(o2[q] as int).next == after(o2, q)
        } by {
            let q0 = if q < p { q } else { q + 1 };
            assert(o2[q] == o[q0]);
            assert(old_self.slot(o[q0] as int).prev == before(o, q0));
            assert(old_self.slot(o[q0] as int).next == after(o, q0));
            if q0 != p - 1 && q0 != p + 1 {
                assert(o[q0] != o[p - 1]);
                if p + 1 < o.len() {
                    assert(o[q0] != o[p + 1]);
                }
            }
        }
        assert(o2.no_duplicates()) by {
            assert forall|i: int, j: int| 0 <= i < j < o2.len() implies o2[i] != o2[j] by {
                let i0 = if i < p { i } else { i + 1 };
                let j0 = if j < p { j } else { j + 1 };
                assert(o2[i] == o[i0] && o2[j] == o[j0]);
            }
        }
        assert forall|q: int| 0 <= q < o2.len() implies o2[q] != o[p] by {
            let q0 = if q < p { q } else { q + 1 };
            assert(o2[q] == o[q0]);
        }
    }
}


/// `o` and `r` are inverse permutations of `0..n`.
spec fn ranked_seqs(o: Seq<usize>, r: Seq<int>, n: nat) -> bool {
    &&& o.len() == n
    &&& r.len() == n
    &&& forall|p: int| 0 <= p < n ==> #[trigger] o[p] < n && r[o[p] as int] == p
    &&& forall|s: int| 0 <= s < n ==> 0 <= #[trigger] r[s] < n && o[r[s]] == s
}

proof fn lemma_front_ranked(o: Seq<usize>, r: Seq<int>, p: int, n: nat)
    requires
        ranked_seqs(o, r, n),
        0 <= p < n,
    ensures
        ranked_seqs(order_after_front(o, p), rank_after_front(r, p), n),
{
    let o3 = order_after_front(o, p);
    let r3 = rank_after_front(r, p);
    assert forall|q: int| 0 <= q < n implies #[trigger] o3[q] < n && r3[o3[q] as int] == q by {
        if q == 0 {
        } else if q <= p {
            assert(o3[q] == o[q - 1]);
        } else {
            assert(o3[q] == o[q]);
        }
    }
    assert forall|s: int| 0 <= s < n implies 0 <= #[trigger] r3[s] < n && o3[r3[s]] == s by {
        if r[s] == p {
        } else if r[s] < p {
            assert(o3[r[s] + 1] == o[r[s]]);
        } else {
            assert(o3[r3[s]] == o[r[s]]);
        }
    }
}

impl<K, V> LruCache<K, V> {
    /// The key index survives any change that keeps the keys in their slots.
    proof fn lemma_indexed_payload(&self, old_self: &Self)
        requires
            old_self.indexed(),
            same_payload(self.vec@, old_self.vec@),
            self.map@ == old_self.map@,
        ensures
            self.indexed(),
    {
        assert forall|s: int| 0 <= s < self.vec@.len() implies #[trigger] self.vec@[s] is Some
            && self.map@.contains_key(self.slot(s).key) && self.map@[self.slot(s).key] == s by {
            assert(old_self.vec@[s] is Some);
        }
    }
}


impl<K, V> LruCache<K, V> {
    /// The stored entries, most recently used first.
    pub closed spec fn entry_seq(&self) -> Seq<(K, V)> {
        Seq::new(
            self.order@.len(),
            |p: int| (self.slot(self.order@[p] as int).key, self.slot(self.order@[p] as int).value),
        )
    }

    /// The most entries this cache holds.
    pub closed spec fn max_entries(&self) -> nat {
        self.capacity as nat
    }
}

impl<K: Clone, V> LruCache<K, V> {
    /// How the entries relate to the key index: no key twice, a key is
    /// stored iff the map knows it, and then it sits at its slot's rank.
    proof fn lemma_entries(&self, k: K)
        requires
            self.inv(),
        ensures
            distinct_keys(self.entry_seq()),
            self.entry_seq().len() == self.vec@.len(),
            has_key(self.entry_seq(), k) <==> self.map@.contains_key(k),
            self.map@.contains_key(k) ==> key_pos(self.entry_seq(), k) == self.rank@[self.map@[k] as int],
    {
        let e = self.entry_seq();
        let o = self.order@;
        let r = self.rank@;
        assert forall|i: int, j: int| 0 <= i < e.len() && 0 <= j < e.len() && i != j implies e[i].0 != e[j].0 by {
            assert(o[i] < self.vec@.len() && o[j] < self.vec@.len());
            assert(self.vec@[o[i] as int] is Some);
            assert(self.vec@[o[j] as int] is Some);
            assert(r[o[i] as int] == i && r[o[j] as int] == j);
        }
        if self.map@.contains_key(k) {
            let s = self.map@[k] as int;
            let p = r[s];
            assert(o[p] == s);
            assert(e[p].0 == k);
            assert(has_key(e, k));
            let q = key_pos(e, k);
            assert(e[q].0 == k);
        }
        if has_key(e, k) {
            let q = key_pos(e, k);
            assert(o[q] < self.vec@.len());
            assert(self.vec@[o[q] as int] is Some);
        }
    }

    /// The entries after the slot at position `p` moved to the front with its
    /// payload unchanged.
    proof fn lemma_entries_front(&self, old_self: &Self, p: int)
        requires
            0 <= p < old_self.order@.len(),
            old_self.order@.len() == old_self.vec@.len(),
            forall|q: int| 0 <= q < old_self.order@.len() ==> #[trigger] old_self.order@[q] < old_self.vec@.len(),
            self.order@ == order_after_front(old_self.order@, p),
            same_payload(self.vec@, old_self.vec@),
        ensures
            self.entry_seq() == seq![old_self.entry_seq()[p]] + old_self.entry_seq().remove(p),
    {
        let o = old_self.order@;
        let e = old_self.entry_seq();
        let e2 = seq![e[p]] + e.remove(p);
        assert forall|q: int| 0 <= q < e2.len() implies #[trigger] self.entry_seq()[q] == e2[q] by {
            let q0 = if q == 0 { p } else if q <= p { q - 1 } else { q };
            assert(self.order@[q] == o[q0]);
            assert(o[q0] < old_self.vec@.len());
            assert(old_self.vec@[o[q0] as int] is Some ==> self.vec@[o[q0] as int] is Some);
        }
        assert(self.entry_seq() =~= e2);
    }
}

impl<K, V> LruCache<K, V> where K: Hash + Eq + Clone {
    /// Evicts the least recently used entry (in slot `tail_index`, the last of
    /// the order, with `self.tail` already taken) and stores `node` in its
    /// slot, which it returns.
    fn evict_tail(&mut self, node: Node<K, V>, tail_index: usize) -> (slot: usize)
        requires
            key_model::<K>(),
            old(self).order@.len() >= 1,
            old(self).order@.len() == old(self).vec@.len(),
            tail_index == old(self).order@.last(),
            old(self).links(old(self).order@),
            old(self).head == first_of(old(self).order@),
            old(self).tail is None,
        ensures
            slot == tail_index,
            final(self).links(old(self).order@.drop_last()),
            final(self).ends(old(self).order@.drop_last()),
            final(self).vec@.len() == old(self).vec@.len(),
            final(self).vec@[tail_index as int] == Some(node),
            forall|s: int|
                0 <= s < final(self).vec@.len() && s != tail_index ==> (#[trigger] final(self).vec@[s]
                    is Some <==> old(self).vec@[s] is Some) && (final(self).vec@[s] is Some ==> (
                final(self).slot(s).key == old(self).slot(s).key && final(self).slot(s).value
                    == old(self).slot(s).value)),
            final(self).map@ == old(self).map@.remove(old(self).slot(tail_index as int).key),
            final(self).capacity == old(self).capacity,
            final(self).order == old(self).order,
            final(self).rank == old(self).rank,
    {
        let ghost o = self.order@;
        let ghost n = o.len();
        assert(o[n - 1] == tail_index);
        let prev_index = self.vec[tail_index].as_ref().expect("tail index must point to a live node").prev;
        self.map.remove(&self.vec[tail_index].as_ref().expect("tail index must point to a live node").key);
        self.vec.set(tail_index, Some(node));
        if let Some(prev_index) = prev_index {
            assert(prev_index == o[n - 2]);
            self.vec[prev_index].as_mut().expect("tail index must point to a live node").next = None;
            self.tail = Some(prev_index);
        } else {
            self.head = None;
        }
        proof {
            self.lemma_dropped(old(self), o);
        }
        tail_index
    }
}


impl<K, V> LruCache<K, V> {
    /// After the last node of `o` has been cut off the list (its slot
    /// overwritten, its predecessor's `next` cleared), the rest is linked.
    proof fn lemma_dropped(&self, old_self: &Self, o: Seq<usize>)
        requires
            old_self.links(o),
            o.len() >= 1,
            self.vec@.len() == old_self.vec@.len(),
            o.len() >= 2 ==> self.head == old_self.head && self.tail == Some(o[o.len() - 2]),
            o.len() >= 2 ==> old_self.head == Some(o[0]),
            o.len() == 1 ==> self.head is None && self.tail is None,
            forall|s: int|
                0 <= s < self.vec@.len() && s != o.last() && (o.len() >= 2 ==> s != o[o.len() - 2])
                    ==> #[trigger] self.vec@[s] == old_self.vec@[s],
            o.len() >= 2 ==> self.vec@[o[o.len() - 2] as int] is Some,
            o.len() >= 2 ==> self.slot(o[o.len() - 2] as int).prev == old_self.slot(o[o.len() - 2] as int).prev,
            o.len() >= 2 ==> self.slot(o[o.len() - 2] as int).next is None,
        ensures
            self.links(o.drop_last()),
            self.ends(o.drop_last()),
            !o.drop_last().contains(o.last()),
    {
        let n = o.len();
        let o2 = o.drop_last();
        assert forall|q: int| 0 <= q < o2.len() implies {
            &&& #[trigger] o2[q] < self.vec@.len()
            &&& self.vec@[o2[q] as int] is Some
            &&& self.slot(o2[q] as int).prev == before(o2, q)
            &&& self.slot(o2[q] as int).next == after(o2, q)
        } by {
            assert(o2[q] == o[q]);
            assert(old_self.slot(o[q] as int).prev == before(o, q));
            assert(old_self.slot(o[q] as int).next == after(o, q));
            assert(o[q] != o[n - 1]);
            if q + 2 != n {
                assert(o[q] != o[n - 2]);
            }
        }
        assert(o2.no_duplicates()) by {
            assert forall|i: int, j: int| 0 <= i < j < o2.len() implies o2[i] != o2[j] by {
                assert(o2[i] == o[i] && o2[j] == o[j]);
            }
        }
        assert forall|q: int| 0 <= q < o2.len() implies o2[q] != o.last() by {
            assert(o2[q] == o[q]);
        }
    }
}


impl<K, V> Cache<K, V> for LruCache<K, V> where K: Eq + Hash + Clone {
    closed spec fn wf(&self) -> bool {
        self.inv()
    }

    closed spec fn entries(&self) -> Seq<(K, V)> {
        self.entry_seq()
    }

    closed spec fn capacity(&self) -> nat {
        self.max_entries()
    }

    open spec fn accepts_keys() -> bool {
        key_model::<K>()
    }

    proof fn lemma_wf_bounded(&self) {
        self.lemma_entries(arbitrary());
    }

    fn new(capacity: usize) -> (cache: Self) {
        let cache = Self {
            capacity,
            map: HashMap::new(),
            vec: Vec::new(),
            head: None,
            tail: None,
            order: Ghost(Seq::empty()),
            rank: Ghost(Seq::empty()),
        };
        assert(cache.entry_seq() =~= Seq::<(K, V)>::empty());
        cache
    }

    fn get(&mut self, key: &K) -> (found: Option<&V>)
        ensures
            found matches Some(v) ==> lookup(old(self).entries(), *key) == Some(*v),
    {
        proof {
            self.lemma_entries(*key);
        }
        let index = match self.map.get(key) {
            Some(found) => *found,
            None => return None,
        };
        let ghost p = self.rank@[index as int];
        self.move_to_front(index, Ghost(p));
        proof {
            self.lemma_entries_front(old(self), p);
            self.lemma_entries(*key);
        }
        Some(&self.vec[index].as_ref().expect("index must point to a live node").value)
    }

    fn put(&mut self, key: K, value: V) {
        proof {
            self.lemma_entries(key);
        }
        if let Some(found) = self.map.get(&key) {
            let index = *found;
            self.put_existing(index, value, Ghost(key));
        } else {
            self.put_new(key, value);
        }
        proof {
            self.lemma_entries(key);
        }
    }
}

impl<K, V> LruCache<K, V> where K: Hash + Eq + Clone {
    /// Replaces the value in slot `index`, which holds `key`, and moves it to the front.
    fn put_existing(&mut self, index: usize, value: V, Ghost(key): Ghost<K>)
        requires
            old(self).inv(),
            old(self).map@.contains_key(key),
            old(self).map@[key] == index,
        ensures
            final(self).inv(),
            final(self).capacity == old(self).capacity,
            final(self).entry_seq() == after_put(
                old(self).entry_seq(),
                old(self).capacity as nat,
                key,
                value,
            ),
    {
        proof {
            self.lemma_entries(key);
        }
        let ghost p = self.rank@[index as int];
        self.move_to_front(index, Ghost(p));
        let ghost moved = *self;
        self.vec[index].as_mut().expect("index must point to a live node").value = value;
        proof {
            moved.lemma_entries_front(old(self), p);
            self.lemma_value_replaced(&moved, index as int, value);
            let e = old(self).entry_seq();
            assert(e[p].0 == key);
            assert(self.entry_seq() =~= after_put(e, old(self).capacity as nat, key, value));
        }
    }

    /// Stores `key`, which is absent, at the front: in the slot of the least
    /// recently used entry when the cache is full, in a new slot otherwise.
    #[verifier::rlimit(30)]
    fn put_new(&mut self, key: K, value: V)
        requires
            old(self).inv(),
            !old(self).map@.contains_key(key),
        ensures
            final(self).inv(),
            final(self).capacity == old(self).capacity,
            final(self).entry_seq() == after_put(
                old(self).entry_seq(),
                old(self).capacity as nat,
                key,
                value,
            ),
    {
        let key_copy = key.clone();
        assert(strictly_cloned(key, key_copy));
        let node = Node::new(key_copy, value);
        let evict_slot = if self.vec.len() >= self.capacity {
            self.tail.take()
        } else {
            None
        };
        let ghost o = self.order@;
        let ghost n = o.len();
        let ghost r = self.rank@;
        let new_index = match evict_slot {
            Some(tail_index) => {
                let slot = self.evict_tail(node, tail_index);
                self.push_front(slot, Ghost(o.drop_last()));
                proof {
                    assert(o.remove(n - 1) =~= o.drop_last());
                    lemma_front_ranked(o, r, n - 1, n);
                    self.order = Ghost(order_after_front(o, n - 1));
                    self.rank = Ghost(rank_after_front(r, n - 1));
                }
                slot
            },
            None => {
                self.vec.push(Some(node));
                let slot = self.vec.len() - 1;
                proof {
                    self.lemma_grown(old(self), o);
                }
                self.push_front(slot, Ghost(o));
                proof {
                    lemma_push_ranked(o, r, n);
                    self.order = Ghost(seq![slot] + o);
                    self.rank = Ghost(r.map_values(|x: int| x + 1).push(0));
                }
                slot
            },
        };
        self.map.insert(key, new_index);
        proof {
            self.lemma_inserted(old(self), new_index, key, value, evict_slot is Some);
        }
    }
}

proof fn lemma_push_ranked(o: Seq<usize>, r: Seq<int>, n: nat)
    requires
        ranked_seqs(o, r, n),
        n < usize::MAX,
    ensures
        ranked_seqs(seq![n as usize] + o, r.map_values(|x: int| x + 1).push(0), n + 1),
{
    let o3 = seq![n as usize] + o;
    let r3 = r.map_values(|x: int| x + 1).push(0);
    assert forall|q: int| 0 <= q < n + 1 implies #[trigger] o3[q] < n + 1 && r3[o3[q] as int] == q by {
        if q > 0 {
            assert(o3[q] == o[q - 1]);
        }
    }
    assert forall|s: int| 0 <= s < n + 1 implies 0 <= #[trigger] r3[s] < n + 1 && o3[r3[s]] == s by {
        if s < n {
            assert(r3[s] == r[s] + 1);
            assert(o3[r[s] + 1] == o[r[s]]);
        }
    }
}

impl<K, V> LruCache<K, V> {
    /// A slot pushed at the end of the arena leaves the list as it was.
    proof fn lemma_grown(&self, old_self: &Self, o: Seq<usize>)
        requires
            old_self.links(o),
            old_self.ends(o),
            self.vec@.len() == old_self.vec@.len() + 1,
            self.vec@.len() <= usize::MAX,
            forall|s: int| 0 <= s < old_self.vec@.len() ==> #[trigger] self.vec@[s] == old_self.vec@[s],
            self.head == old_self.head,
            self.tail == old_self.tail,
        ensures
            self.links(o),
            self.ends(o),
            !o.contains(old_self.vec@.len() as usize),
    {
        assert forall|q: int| 0 <= q < o.len() implies {
            &&& #[trigger] o[q] < self.vec@.len()
            &&& self.vec@[o[q] as int] is Some
            &&& self.slot(o[q] as int).prev == before(o, q)
            &&& self.slot(o[q] as int).next == after(o, q)
        } by {
            assert(o[q] < old_self.vec@.len());
            assert(self.vec@[o[q] as int] == old_self.vec@[o[q] as int]);
        }
        assert forall|q: int| 0 <= q < o.len() implies o[q] != old_self.vec@.len() as usize by {
            assert(o[q] < old_self.vec@.len());
        }
    }
}

impl<K: Clone, V> LruCache<K, V> {
    /// The value in slot `i` was replaced: the structure still holds, and the
    /// entry of that slot carries the new value.
    proof fn lemma_value_replaced(&self, moved: &Self, i: int, v: V)
        requires
            moved.inv(),
            0 <= i < moved.vec@.len(),
            self.vec@.len() == moved.vec@.len(),
            forall|s: int| 0 <= s < self.vec@.len() && s != i ==> #[trigger] self.vec@[s] == moved.vec@[s],
            self.vec@[i] is Some,
            self.slot(i).key == moved.slot(i).key,
            self.slot(i).prev == moved.slot(i).prev,
            self.slot(i).next == moved.slot(i).next,
            self.slot(i).value == v,
            self.map@ == moved.map@,
            self.head == moved.head,
            self.tail == moved.tail,
            self.order == moved.order,
            self.rank == moved.rank,
            self.capacity == moved.capacity,
        ensures
            self.inv(),
            self.entry_seq() == moved.entry_seq().update(moved.rank@[i], (moved.slot(i).key, v)),
    {
        let o = self.order@;
        assert forall|q: int| 0 <= q < o.len() implies {
            &&& #[trigger] o[q] < self.vec@.len()
            &&& self.vec@[o[q] as int] is Some
            &&& self.slot(o[q] as int).prev == before(o, q)
            &&& self.slot(o[q] as int).next == after(o, q)
        } by {
            assert(o[q] < moved.vec@.len());
        }
        assert forall|s: int| 0 <= s < self.vec@.len() implies #[trigger] self.vec@[s] is Some
            && self.map@.contains_key(self.slot(s).key) && self.map@[self.slot(s).key] == s by {
            assert(moved.vec@[s] is Some);
        }
        let e2 = moved.entry_seq().update(moved.rank@[i], (moved.slot(i).key, v));
        assert forall|q: int| 0 <= q < e2.len() implies #[trigger] self.entry_seq()[q] == e2[q] by {
            assert(o[q] < moved.vec@.len());
            if o[q] as int == i {
                assert(moved.rank@[i] == q);
            } else {
                assert(moved.rank@[o[q] as int] == q);
            }
        }
        assert(self.entry_seq() =~= e2);
    }

    /// A key that was absent now sits in `slot`, at the front of the order.
    proof fn lemma_inserted(&self, old_self: &Self, slot: usize, key: K, value: V, evicted: bool)
        requires
            old_self.inv(),
            !old_self.map@.contains_key(key),
            key_model::<K>(),
            self.capacity == old_self.capacity,
            evicted <==> old_self.order@.len() >= old_self.capacity,
            evicted ==> slot == old_self.order@.last() && self.order@ == seq![slot]
                + old_self.order@.drop_last() && self.vec@.len() == old_self.vec@.len(),
            !evicted ==> slot == old_self.vec@.len() && self.order@ == seq![slot] + old_self.order@
                && self.vec@.len() == old_self.vec@.len() + 1,
            ranked_seqs(self.order@, self.rank@, self.vec@.len()),
            self.links(self.order@),
            self.ends(self.order@),
            self.vec@[slot as int] is Some,
            self.slot(slot as int).key == key,
            self.slot(slot as int).value == value,
            forall|s: int|
                0 <= s < self.vec@.len() && s != slot ==> (#[trigger] self.vec@[s] is Some
                    <==> old_self.vec@[s] is Some) && (self.vec@[s] is Some ==> (self.slot(s).key
                    == old_self.slot(s).key && self.slot(s).value == old_self.slot(s).value)),
            evicted ==> self.map@ == old_self.map@.remove(old_self.slot(slot as int).key).insert(
                key,
                slot,
            ),
            !evicted ==> self.map@ == old_self.map@.insert(key, slot),
        ensures
            self.inv(),
            self.entry_seq() == after_put(
                old_self.entry_seq(),
                old_self.capacity as nat,
                key,
                value,
            ),
    {
        old_self.lemma_entries(key);
        let o = old_self.order@;
        let n = o.len();
        let e = old_self.entry_seq();
        let nn = self.vec@.len();
        let old_key = old_self.slot(slot as int).key;
        assert forall|k: K| #[trigger] self.map@.contains_key(k) implies 0 <= self.map@[k] < nn
            && self.vec@[self.map@[k] as int] is Some && self.slot(self.map@[k] as int).key == k by {
            if k != key {
                let s = old_self.map@[k];
                assert(old_self.map@.contains_key(k));
                assert(old_self.slot(s as int).key == k);
                if evicted {
                    assert(k != old_key);
                    assert(s != slot);
                }
            }
        }
        assert forall|s: int| 0 <= s < nn implies #[trigger] self.vec@[s] is Some
            && self.map@.contains_key(self.slot(s).key) && self.map@[self.slot(s).key] == s by {
            if s != slot {
                assert(old_self.vec@[s] is Some);
                let k = old_self.slot(s).key;
                assert(old_self.map@[k] == s);
                assert(k != key);
                if evicted {
                    assert(old_self.map@[old_key] == slot);
                    assert(k != old_key);
                }
            }
        }
        let e2 = if evicted {
            seq![(key, value)] + e.drop_last()
        } else {
            seq![(key, value)] + e
        };
        assert forall|q: int| 0 <= q < e2.len() implies #[trigger] self.entry_seq()[q] == e2[q] by {
            if q > 0 {
                assert(self.order@[q] == o[q - 1]);
                assert(o[q - 1] < old_self.vec@.len());
                assert(old_self.vec@[o[q - 1] as int] is Some);
                if evicted {
                    assert(o[q - 1] != o[n - 1]);
                } else {
                    assert(o[q - 1] != slot);
                }
            }
        }
        assert(self.entry_seq() =~= e2);
    }
}

} // verus!
