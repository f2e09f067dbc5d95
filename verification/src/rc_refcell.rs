//! The list design: the nodes in a `Vec`, kept in recency order.
//!
//! The most recently used node comes first; a node is found by a linear
//! search on its key, moved to the front by a removal and an insertion at
//! the front, and eviction drops the last node.
use crate::cache::{after_get, after_put, distinct_keys, has_key, key_pos, lookup, Cache};
use std::hash::Hash;
use vstd::laws_eq::obeys_concrete_eq;
use vstd::prelude::*;

verus! {

struct Node<K, V> {
    key: K,
    value: V,
}

impl<K, V> Node<K, V> {
    fn new(key: K, value: V) -> (node: Self)
        ensures
            node.key == key,
            node.value == value,
    {
        Self { key, value }
    }
}

/// LRU cache whose nodes sit in a `Vec` in recency order, the first being
/// the most recently used entry and the last the least recently used one.
pub struct LruCache<K, V> {
    capacity: usize,
    nodes: Vec<Node<K, V>>,
}

impl<K, V> LruCache<K, V> {
    /// The stored entries, most recently used first.
    pub closed spec fn entry_seq(&self) -> Seq<(K, V)> {
        self.nodes@.map_values(|n: Node<K, V>| (n.key, n.value))
    }

    /// The most entries this cache holds.
    pub closed spec fn max_entries(&self) -> nat {
        self.capacity as nat
    }
}

impl<K: PartialEq, V> LruCache<K, V> {
    spec fn inv(&self) -> bool {
        &&& obeys_concrete_eq::<K>()
        &&& 0 < self.capacity
        &&& self.nodes@.len() <= self.capacity
        &&& distinct_keys(self.entry_seq())
    }

    /// The position of the node holding `key`, if any.
    fn find(&self, key: &K) -> (pos: Option<usize>)
        requires
            obeys_concrete_eq::<K>(),
            distinct_keys(self.entry_seq()),
        ensures
            pos is Some <==> has_key(self.entry_seq(), *key),
            pos matches Some(i) ==> i < self.nodes@.len() && key_pos(self.entry_seq(), *key) == i
                && self.entry_seq()[i as int].0 == *key,
    {
        proof {
            reveal(obeys_concrete_eq);
        }
        let mut i: usize = 0;
        while i < self.nodes.len()
            invariant
                i <= self.nodes@.len(),
                obeys_concrete_eq::<K>(),
                distinct_keys(self.entry_seq()),
                forall|j: int| 0 <= j < i ==> self.entry_seq()[j].0 != *key,
            decreases self.nodes@.len() - i,
        {
            proof {
                reveal(obeys_concrete_eq);
                assert(self.entry_seq()[i as int] == (self.nodes@[i as int].key, self.nodes@[i as int].value));
            }
            if self.nodes[i].key == *key {
                proof {
                    let e = self.entry_seq();
                    assert(e[i as int].0 == *key);
                    assert(has_key(e, *key));
                    let q = key_pos(e, *key);
                    assert(e[q].0 == *key);
                    if q != i {
                        assert(e[q].0 != e[i as int].0);
                    }
                }
                return Some(i);
            }
            i = i + 1;
        }
        None
    }

    /// Links `node` in at the head of the list.
    fn push_front(&mut self, node: Node<K, V>)
        ensures
            final(self).entry_seq() == seq![(node.key, node.value)] + old(self).entry_seq(),
            final(self).capacity == old(self).capacity,
    {
        self.nodes.insert(0, node);
        proof {
            assert(self.entry_seq() =~= seq![(node.key, node.value)] + old(self).entry_seq());
        }
    }

    /// Unlinks the node at position `index` and links it back in at the head.
    fn move_to_front(&mut self, index: usize)
        requires
            index < old(self).nodes@.len(),
        ensures
            final(self).entry_seq() == seq![old(self).entry_seq()[index as int]] + old(
                self,
            ).entry_seq().remove(index as int),
            final(self).capacity == old(self).capacity,
    {
        let node = self.nodes.remove(index);
        proof {
            assert(self.entry_seq() =~= old(self).entry_seq().remove(index as int));
        }
        self.push_front(node);
    }
}

impl<K, V> Cache<K, V> for LruCache<K, V> where K: Hash + Eq + Clone {
    closed spec fn wf(&self) -> bool {
        self.inv()
    }

    closed spec fn entries(&self) -> Seq<(K, V)> {
        self.entry_seq()
    }

    closed spec fn capacity(&self) -> nat {
        self.max_entries()
    }

    open spec fn accepts_keys() -> bool {
        obeys_concrete_eq::<K>()
    }

    proof fn lemma_wf_bounded(&self) {
        assert(self.entry_seq().len() == self.nodes@.len());
    }

    fn new(capacity: usize) -> (cache: Self) {
        let cache = Self { capacity, nodes: Vec::new() };
        assert(cache.entry_seq() =~= Seq::<(K, V)>::empty());
        cache
    }

    fn get(&mut self, key: &K) -> (found: Option<&V>) {
        let index = match self.find(key) {
            Some(i) => i,
            None => return None,
        };
        self.move_to_front(index);
        proof {
            lemma_to_front_distinct(old(self).entry_seq(), index as int);
            assert(self.entry_seq().len() == self.nodes@.len());
            assert(self.entry_seq()[0] == (self.nodes@[0].key, self.nodes@[0].value));
        }
        Some(&self.nodes[0].value)
    }

    fn put(&mut self, key: K, value: V) {
        let ghost e = self.entry_seq();
        assert(e.len() == self.nodes@.len());
        match self.find(&key) {
            Some(index) => {
                self.move_to_front(index);
                assert(self.entry_seq().len() == self.nodes@.len());
                let ghost moved = self.entry_seq();
                let ghost moved_nodes = self.nodes@;
                self.nodes[0].value = value;
                proof {
                    assert forall|j: int| 0 <= j < moved.len() implies #[trigger] self.entry_seq()[j]
                        == moved.update(0, (key, value))[j] by {
                        assert(self.entry_seq()[j] == (self.nodes@[j].key, self.nodes@[j].value));
                        assert(moved[j] == (moved_nodes[j].key, moved_nodes[j].value));
                    }
                    lemma_to_front_distinct(e, index as int);
                    assert(self.entry_seq() =~= moved.update(0, (key, value)));
                    assert(self.entry_seq() =~= to_front_replaced(e, index as int, key, value));
                }
            },
            None => {
                if self.nodes.len() >= self.capacity {
                    self.nodes.pop();
                    proof {
                        assert(self.entry_seq() =~= e.drop_last());
                    }
                }
                let ghost kept = self.entry_seq();
                assert(kept.len() == self.nodes@.len());
                self.push_front(Node::new(key, value));
                proof {
                    lemma_front_new_distinct(kept, e, key, value);
                    assert(self.entry_seq().len() == self.nodes@.len());
                }
            },
        }
    }
}

spec fn to_front_replaced<K, V>(e: Seq<(K, V)>, p: int, key: K, value: V) -> Seq<(K, V)> {
    seq![(key, value)] + e.remove(p)
}

/// Moving an entry to the front keeps the keys distinct.
proof fn lemma_to_front_distinct<K, V>(e: Seq<(K, V)>, p: int)
    requires
        distinct_keys(e),
        0 <= p < e.len(),
    ensures
        distinct_keys(seq![e[p]] + e.remove(p)),
        forall|v: V| distinct_keys(#[trigger] to_front_replaced(e, p, e[p].0, v)),
{
    let e2 = seq![e[p]] + e.remove(p);
    assert forall|i: int, j: int| 0 <= i < e2.len() && 0 <= j < e2.len() && i != j implies e2[i].0
        != e2[j].0 by {
        let i0 = if i == 0 { p } else if i <= p { i - 1 } else { i };
        let j0 = if j == 0 { p } else if j <= p { j - 1 } else { j };
        assert(e2[i] == e[i0] && e2[j] == e[j0]);
    }
    assert forall|v: V| distinct_keys(#[trigger] to_front_replaced(e, p, e[p].0, v)) by {
        let e3 = to_front_replaced(e, p, e[p].0, v);
        assert forall|i: int, j: int| 0 <= i < e3.len() && 0 <= j < e3.len() && i != j implies e3[i].0
            != e3[j].0 by {
            assert(e3[i].0 == e2[i].0 && e3[j].0 == e2[j].0);
        }
    }
}

/// A new key in front of entries that lack it keeps the keys distinct.
proof fn lemma_front_new_distinct<K, V>(kept: Seq<(K, V)>, e: Seq<(K, V)>, key: K, value: V)
    requires
        distinct_keys(e),
        !has_key(e, key),
        kept.len() <= e.len(),
        forall|i: int| 0 <= i < kept.len() ==> kept[i] == e[i],
    ensures
        distinct_keys(seq![(key, value)] + kept),
{
    let e2 = seq![(key, value)] + kept;
    assert forall|i: int| 0 <= i < e.len() implies e[i].0 != key by {
        if e[i].0 == key {
            assert(has_key(e, key));
        }
    }
    assert forall|i: int, j: int| 0 <= i < e2.len() && 0 <= j < e2.len() && i != j implies e2[i].0
        != e2[j].0 by {
        if i > 0 {
            assert(e2[i] == kept[i - 1]);
        }
        if j > 0 {
            assert(e2[j] == kept[j - 1]);
        }
    }
}

} // verus!
