//! The cache itself: a vector-backed arena of doubly linked nodes, ordered
//! from most to least recently used, with a hash index from key to node.
use vstd::prelude::*;
use vstd::hash_map::HashMapWithView;
use crate::model::{
    Entry, after_get, after_put, contains_key, lemma_contains_cons, lemma_contains_remove,
    lemma_position_unique, lookup, position, unique_keys, valid, without_key,
};

verus! {

broadcast use vstd::std_specs::hash::group_hash_axioms;

/// One slot of the arena: an entry and the slots of its neighbours in recency order.
#[derive(Clone, Copy)]
struct Node {
    entry: Entry,
    prev: Option<usize>,
    next: Option<usize>,
}

/// A cache that holds at most `capacity` entries and evicts the least
/// recently used one when a new key would exceed that bound.
pub struct LRU {
    lru_capacity: usize,
    index: HashMapWithView<i32, usize>,
    nodes: Vec<Node>,
    head: Option<usize>,
    tail: Option<usize>,
    /// The arena slots in recency order, most recent first.
    order: Ghost<Seq<usize>>,
}

/// The operations of a recency-bounded cache, stated over its entries.
pub trait LRUOperators: Sized {
    /// The entries, most recently used first.
    spec fn entries(&self) -> Seq<Entry>;

    /// The bound on the number of entries.
    spec fn spec_capacity(&self) -> nat;

    /// The structure is consistent with `entries`.
    spec fn inv(&self) -> bool;

    /// An empty cache of the given positive capacity.
    fn new(capacity: usize) -> (r: Self)
        requires
            capacity > 0,
        ensures
            r.inv(),
            r.entries() == Seq::<Entry>::empty(),
            r.spec_capacity() == capacity,
    ;

    /// The value stored under `key`; a hit makes that entry the most recently used.
    fn get(&mut self, key: i32) -> (r: Option<i32>)
        requires
            old(self).inv(),
        ensures
            final(self).inv(),
            valid(final(self).entries(), final(self).spec_capacity()),
            r == lookup(old(self).entries(), key),
            final(self).entries() == after_get(old(self).entries(), key),
            final(self).spec_capacity() == old(self).spec_capacity(),
    ;

    /// Stores `value` under `key` as the most recently used entry, evicting
    /// the least recently used one when the cache would overflow.
    fn put(&mut self, key: i32, value: i32)
        requires
            old(self).inv(),
        ensures
            final(self).inv(),
            valid(final(self).entries(), final(self).spec_capacity()),
            final(self).entries() == after_put(old(self).entries(), key, value, old(self).spec_capacity()),
            final(self).spec_capacity() == old(self).spec_capacity(),
    ;

    /// The number of entries.
    fn len(&self) -> (r: usize)
        requires
            self.inv(),
        ensures
            r == self.entries().len(),
    ;

    /// The most recently used entry.
    fn first(&self) -> (r: Option<&Entry>)
        requires
            self.inv(),
        ensures
            match r {
                Some(e) => self.entries().len() > 0 && *e == self.entries()[0],
                None => self.entries().len() == 0,
            },
    ;

    /// The least recently used entry.
    fn last(&self) -> (r: Option<&Entry>)
        requires
            self.inv(),
        ensures
            match r {
                Some(e) => self.entries().len() > 0 && *e == self.entries().last(),
                None => self.entries().len() == 0,
            },
    ;
}

impl LRU {
    /// The links of the nodes listed in `order` form a chain from `head` to `tail`.
    closed spec fn chain(&self) -> bool {
        let order = self.order@;
        let n = order.len();
        &&& forall|i: int| 0 <= i < n ==> #[trigger] order[i] < self.nodes@.len()
        &&& forall|i: int, j: int| 0 <= i < n && 0 <= j < n && #[trigger] order[i] == #[trigger] order[j] ==> i == j
        &&& forall|i: int| 0 <= i < n ==> (#[trigger] self.nodes@[order[i] as int]).prev == if i == 0 {
            None
        } else {
            Some(order[i - 1])
        }
        &&& forall|i: int| 0 <= i < n ==> (#[trigger] self.nodes@[order[i] as int]).next == if i == n - 1 {
            None
        } else {
            Some(order[i + 1])
        }
        &&& self.head == if n == 0 { None } else { Some(order[0]) }
        &&& self.tail == if n == 0 { None } else { Some(order[n - 1]) }
    }

    /// The entries of the chained nodes, in chain order.
    closed spec fn chained(&self) -> Seq<Entry> {
        Seq::new(self.order@.len(), |i: int| self.nodes@[self.order@[i] as int].entry)
    }

    /// The index maps exactly the chained keys, each to the slot that holds it.
    closed spec fn indexed(&self) -> bool {
        let s = self.chained();
        &&& forall|k: i32| #[trigger] self.index@.contains_key(k) <==> contains_key(s, k)
        &&& forall|i: int| 0 <= i < self.order@.len() ==> self.index@[(#[trigger] self.nodes@[self.order@[i] as int]).entry.0] == self.order@[i]
    }

    /// Keys are unique, since the index sends each key to one slot.
    proof fn lemma_unique(&self)
        requires
            self.chain(),
            self.indexed(),
        ensures
            unique_keys(self.chained()),
    {
        let s = self.chained();
        let o = self.order@;
        assert forall|i: int, j: int| 0 <= i < s.len() && 0 <= j < s.len() && #[trigger] s[i].0 == #[trigger] s[j].0 implies i == j by {
            assert(self.index@[self.nodes@[o[i] as int].entry.0] == o[i]);
            assert(self.index@[self.nodes@[o[j] as int].entry.0] == o[j]);
        }
    }

    /// The place in the chain of an indexed key, and the slot the index gives for it.
    proof fn lemma_find(&self, k: i32) -> (p: int)
        requires
            self.chain(),
            self.indexed(),
            self.index@.contains_key(k),
        ensures
            0 <= p < self.order@.len(),
            self.order@[p] == self.index@[k],
            self.chained()[p].0 == k,
            position(self.chained(), k) == p,
            lookup(self.chained(), k) == Some(self.chained()[p].1),
    {
        let s = self.chained();
        assert(contains_key(s, k));
        let p = choose|i: int| 0 <= i < s.len() && #[trigger] s[i].0 == k;
        assert(self.index@[self.nodes@[self.order@[p] as int].entry.0] == self.order@[p]);
        self.lemma_unique();
        lemma_position_unique(s, k, p);
        p
    }

    /// The capacity the cache was made with.
    pub fn capacity(&self) -> (r: usize)
        ensures
            r == self.spec_capacity(),
    {
        self.lru_capacity
    }

    /// The entries, most recently used first.
    pub fn entries_in_order(&self) -> (r: Vec<Entry>)
        requires
            self.inv(),
        ensures
            r@ == self.entries(),
    {
        let mut r: Vec<Entry> = Vec::new();
        let mut cur = self.head;
        let n = self.nodes.len();
        while r.len() < n
            invariant
                self.inv(),
                n == self.order@.len(),
                r.len() <= n,
                r@ == self.entries().take(r.len() as int),
                r.len() < n ==> cur == Some(self.order@[r.len() as int]),
            decreases n - r.len(),
        {
            let slot = cur.unwrap();
            let node = self.nodes[slot];
            r.push(node.entry);
            cur = node.next;
            assert(r@ =~= self.entries().take(r.len() as int));
        }
        assert(r@ =~= self.entries());
        r
    }

    /// Takes the node in `slot`, at place `p` of the chain, out of it; the
    /// slot stays in the arena with its entry.
    fn unlink(&mut self, slot: usize, Ghost(p): Ghost<int>)
        requires
            old(self).chain(),
            0 <= p < old(self).order@.len(),
            old(self).order@[p] == slot,
        ensures
            final(self).chain(),
            final(self).order@ == old(self).order@.remove(p),
            final(self).nodes@.len() == old(self).nodes@.len(),
            forall|x: int| 0 <= x < final(self).nodes@.len() ==> (#[trigger] final(self).nodes@[x]).entry == old(self).nodes@[x].entry,
            final(self).index == old(self).index,
            final(self).lru_capacity == old(self).lru_capacity,
    {
        let ghost order = self.order@;
        let ghost n = order.len();
        let ghost old_nodes = self.nodes@;
        let node = self.nodes[slot];
        assert(node == old_nodes[order[p] as int]);
        match node.prev {
            Some(a) => {
                let mut na = self.nodes[a];
                na.next = node.next;
                self.nodes.set(a, na);
            },
            None => {
                self.head = node.next;
            },
        }
        match node.next {
            Some(b) => {
                let mut nb = self.nodes[b];
                nb.prev = node.prev;
                self.nodes.set(b, nb);
            },
            None => {
                self.tail = node.prev;
            },
        }
        self.order = Ghost(order.remove(p));
        proof {
            let o2 = self.order@;
            assert forall|i: int| 0 <= i < o2.len() implies (#[trigger] self.nodes@[o2[i] as int]).prev == if i == 0 {
                None
            } else {
                Some(o2[i - 1])
            } by {
                let j = if i < p { i } else { i + 1 };
                assert(o2[i] == order[j]);
                if i > 0 {
                    let jm = if i - 1 < p { i - 1 } else { i };
                    assert(o2[i - 1] == order[jm]);
                }
                if j == p + 1 {
                    assert(o2[i] == order[p + 1]);
                } else {
                    assert(old_nodes[order[j] as int].prev == if j == 0 { None } else { Some(order[j - 1]) });
                    if p < n - 1 {
                        assert(order[j] != order[p + 1]);
                    }
                }
            }
            assert forall|i: int| 0 <= i < o2.len() implies (#[trigger] self.nodes@[o2[i] as int]).next == if i == o2.len() - 1 {
                None
            } else {
                Some(o2[i + 1])
            } by {
                let j = if i < p { i } else { i + 1 };
                assert(o2[i] == order[j]);
                if i < o2.len() - 1 {
                    let jp = if i + 1 < p { i + 1 } else { i + 2 };
                    assert(o2[i + 1] == order[jp]);
                }
                if j == p - 1 {
                    assert(o2[i] == order[p - 1]);
                } else {
                    assert(old_nodes[order[j] as int].next == if j == n - 1 { None } else { Some(order[j + 1]) });
                    if p > 0 {
                        assert(order[j] != order[p - 1]);
                    }
                }
            }
            assert forall|i: int| 0 <= i < o2.len() implies #[trigger] o2[i] < self.nodes@.len() by {
                let j = if i < p { i } else { i + 1 };
                assert(o2[i] == order[j]);
            }
            assert forall|i: int, j: int| 0 <= i < o2.len() && 0 <= j < o2.len() && #[trigger] o2[i] == #[trigger] o2[j] implies i == j by {
                let i2 = if i < p { i } else { i + 1 };
                let j2 = if j < p { j } else { j + 1 };
                assert(o2[i] == order[i2]);
                assert(o2[j] == order[j2]);
            }
            if o2.len() > 0 {
                if p == 0 {
                    assert(o2[0] == order[1]);
                }
                if p == n - 1 {
                    assert(o2[o2.len() - 1] == order[n - 2]);
                } else {
                    assert(o2[o2.len() - 1] == order[n - 1]);
                }
            }
        }
    }

    /// Puts the node in `slot`, which is not in the chain, at its front.
    fn link_front(&mut self, slot: usize)
        requires
            old(self).chain(),
            slot < old(self).nodes@.len(),
            forall|i: int| 0 <= i < old(self).order@.len() ==> old(self).order@[i] != slot,
        ensures
            final(self).chain(),
            final(self).order@ == seq![slot] + old(self).order@,
            final(self).nodes@.len() == old(self).nodes@.len(),
            forall|x: int| 0 <= x < final(self).nodes@.len() ==> (#[trigger] final(self).nodes@[x]).entry == old(self).nodes@[x].entry,
            final(self).index == old(self).index,
            final(self).lru_capacity == old(self).lru_capacity,
    {
        let ghost order = self.order@;
        let ghost n = order.len();
        let ghost old_nodes = self.nodes@;
        let mut ns = self.nodes[slot];
        ns.prev = None;
        ns.next = self.head;
        self.nodes.set(slot, ns);
        match self.head {
            Some(h) => {
                let mut nh = self.nodes[h];
                nh.prev = Some(slot);
                self.nodes.set(h, nh);
            },
            None => {
                self.tail = Some(slot);
            },
        }
        self.head = Some(slot);
        self.order = Ghost(seq![slot] + order);
        proof {
            let o2 = self.order@;
            assert forall|i: int| 0 <= i < o2.len() implies #[trigger] o2[i] < self.nodes@.len() by {
                if i > 0 {
                    assert(o2[i] == order[i - 1]);
                }
            }
            assert forall|i: int, j: int| 0 <= i < o2.len() && 0 <= j < o2.len() && #[trigger] o2[i] == #[trigger] o2[j] implies i == j by {
                if i > 0 {
                    assert(o2[i] == order[i - 1]);
                }
                if j > 0 {
                    assert(o2[j] == order[j - 1]);
                }
            }
            assert forall|i: int| 0 <= i < o2.len() implies (#[trigger] self.nodes@[o2[i] as int]).prev == if i == 0 {
                None
            } else {
                Some(o2[i - 1])
            } by {
                if i > 0 {
                    assert(o2[i] == order[i - 1]);
                    if i > 1 {
                        assert(o2[i - 1] == order[i - 2]);
                        assert(order[i - 1] != order[0]);
                    }
                }
            }
            assert forall|i: int| 0 <= i < o2.len() implies (#[trigger] self.nodes@[o2[i] as int]).next == if i == o2.len() - 1 {
                None
            } else {
                Some(o2[i + 1])
            } by {
                if i > 0 {
                    assert(o2[i] == order[i - 1]);
                    if i < o2.len() - 1 {
                        assert(o2[i + 1] == order[i]);
                    }
                } else if n > 0 {
                    assert(o2[1] == order[0]);
                }
            }
            if n > 0 {
                assert(o2[o2.len() - 1] == order[n - 1]);
            }
        }
    }
}

impl LRUOperators for LRU {
    closed spec fn entries(&self) -> Seq<Entry> {
        self.chained()
    }

    closed spec fn spec_capacity(&self) -> nat {
        self.lru_capacity as nat
    }

    closed spec fn inv(&self) -> bool {
        &&& self.lru_capacity > 0
        &&& self.chain()
        &&& self.nodes@.len() == self.order@.len()
        &&& self.order@.len() <= self.lru_capacity
        &&& self.indexed()
    }

    fn new(capacity: usize) -> (r: Self) {
        LRU {
            lru_capacity: capacity,
            index: HashMapWithView::new(),
            nodes: Vec::new(),
            head: None,
            tail: None,
            order: Ghost(Seq::empty()),
        }
    }

    fn get(&mut self, key: i32) -> (r: Option<i32>) {
        let ghost s0 = self.chained();
        let ghost o0 = self.order@;
        let found: Option<usize> = match self.index.get(&key) {
            Some(x) => Some(*x),
            None => None,
        };
        match found {
            None => {
                proof {
                    self.lemma_unique();
                }
                None
            },
            Some(slot) => {
                let ghost p = self.lemma_find(key);
                proof {
                    self.lemma_unique();
                }
                self.unlink(slot, Ghost(p));
                self.link_front(slot);
                let value = self.nodes[slot].entry.1;
                proof {
                    let s1 = self.chained();
                    let o1 = self.order@;
                    assert(s1 =~= seq![s0[p]] + s0.remove(p));
                    assert forall|k: i32| #[trigger] self.index@.contains_key(k) <==> contains_key(s1, k) by {
                        lemma_contains_cons(s0[p], s0.remove(p), k);
                        lemma_contains_remove(s0, p, k);
                    }
                    assert forall|i: int| 0 <= i < o1.len() implies self.index@[(#[trigger] self.nodes@[o1[i] as int]).entry.0] == o1[i] by {
                        if i > 0 {
                            let j = if i - 1 < p { i - 1 } else { i };
                            assert(o1[i] == o0[j]);
                            assert(self.nodes@[o0[j] as int].entry == s0[j]);
                        }
                    }
                    self.lemma_unique();
                }
                Some(value)
            },
        }
    }

    fn put(&mut self, key: i32, value: i32) {
        let ghost s0 = self.chained();
        let ghost o0 = self.order@;
        proof {
            self.lemma_unique();
        }
        let found: Option<usize> = match self.index.get(&key) {
            Some(x) => Some(*x),
            None => None,
        };
        match found {
            Some(slot) => {
                let ghost p = self.lemma_find(key);
                self.unlink(slot, Ghost(p));
                let mut nd = self.nodes[slot];
                nd.entry = (key, value);
                self.nodes.set(slot, nd);
                self.link_front(slot);
                proof {
                    let s1 = self.chained();
                    let o1 = self.order@;
                    assert(without_key(s0, key) == s0.remove(p));
                    assert(s1 =~= seq![(key, value)] + s0.remove(p));
                    assert forall|k: i32| #[trigger] self.index@.contains_key(k) <==> contains_key(s1, k) by {
                        lemma_contains_cons((key, value), s0.remove(p), k);
                        lemma_contains_remove(s0, p, k);
                    }
                    assert forall|i: int| 0 <= i < o1.len() implies self.index@[(#[trigger] self.nodes@[o1[i] as int]).entry.0] == o1[i] by {
                        if i > 0 {
                            let j = if i - 1 < p { i - 1 } else { i };
                            assert(o1[i] == o0[j]);
                            assert(self.nodes@[o0[j] as int].entry == s0[j]);
                        }
                    }
                }
            },
            None => {
                assert(!contains_key(s0, key));
                assert(without_key(s0, key) == s0);
                if self.nodes.len() < self.lru_capacity {
                    let slot = self.nodes.len();
                    let ghost before = self.nodes@;
                    self.nodes.push(Node { entry: (key, value), prev: None, next: None });
                    proof {
                        assert forall|i: int| 0 <= i < o0.len() implies #[trigger] self.nodes@[o0[i] as int] == before[o0[i] as int] by {}
                    }
                    self.link_front(slot);
                    self.index.insert(key, slot);
                    proof {
                        let s1 = self.chained();
                        let o1 = self.order@;
                        assert(s1 =~= seq![(key, value)] + s0);
                        assert forall|k: i32| #[trigger] self.index@.contains_key(k) <==> contains_key(s1, k) by {
                            lemma_contains_cons((key, value), s0, k);
                        }
                        assert forall|i: int| 0 <= i < o1.len() implies self.index@[(#[trigger] self.nodes@[o1[i] as int]).entry.0] == o1[i] by {
                            if i > 0 {
                                assert(o1[i] == o0[i - 1]);
                                assert(self.nodes@[o0[i - 1] as int].entry == s0[i - 1]);
                                assert(s0[i - 1].0 != key);
                            }
                        }
                    }
                } else {
                    let slot = self.tail.unwrap();
                    let ghost p = o0.len() - 1;
                    let old_key = self.nodes[slot].entry.0;
                    assert(s0[p].0 == old_key);
                    self.unlink(slot, Ghost(p));
                    self.index.remove(&old_key);
                    let mut nd = self.nodes[slot];
                    nd.entry = (key, value);
                    self.nodes.set(slot, nd);
                    self.link_front(slot);
                    self.index.insert(key, slot);
                    proof {
                        let s1 = self.chained();
                        let o1 = self.order@;
                        assert(s0.remove(p) =~= s0.drop_last());
                        assert(s1 =~= seq![(key, value)] + s0.drop_last());
                        assert((seq![(key, value)] + s0).drop_last() =~= seq![(key, value)] + s0.drop_last());
                        assert forall|k: i32| #[trigger] self.index@.contains_key(k) <==> contains_key(s1, k) by {
                            lemma_contains_cons((key, value), s0.remove(p), k);
                            lemma_contains_remove(s0, p, k);
                        }
                        assert forall|i: int| 0 <= i < o1.len() implies self.index@[(#[trigger] self.nodes@[o1[i] as int]).entry.0] == o1[i] by {
                            if i > 0 {
                                assert(o1[i] == o0[i - 1]);
                                assert(self.nodes@[o0[i - 1] as int].entry == s0[i - 1]);
                                assert(s0[i - 1].0 != key);
                                assert(s0[i - 1].0 != s0[p].0);
                            }
                        }
                    }
                }
            },
        }
        proof {
            self.lemma_unique();
        }
    }

    fn len(&self) -> (r: usize) {
        self.nodes.len()
    }

    fn first(&self) -> (r: Option<&Entry>) {
        match self.head {
            Some(h) => Some(&self.nodes[h].entry),
            None => None,
        }
    }

    fn last(&self) -> (r: Option<&Entry>) {
        match self.tail {
            Some(t) => Some(&self.nodes[t].entry),
            None => None,
        }
    }
}

} // verus!
