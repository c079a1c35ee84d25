//! An LRU cache kept as a doubly-linked list of slots in an arena, with a hash index
//! from each key to the slot that holds it.
use std::collections::HashMap;
use std::hash::Hash;
use vstd::prelude::*;
use vstd::std_specs::hash::obeys_key_model;
use crate::model::{
    added, evicted, first_value, has_key, index_of, keys_distinct, last_value, lookup, removed,
    touched, valid_entries,
};

verus! {

/// The slot of the sentinel before the most recently used entry.
const HEAD: usize = 0;

/// The slot of the sentinel after the least recently used entry.
const TAIL: usize = 1;

/// A slot of the arena: an entry of the cache, a sentinel, or a free slot.
/// `prev` and `next` are the slots of its neighbours in the list.
#[derive(Copy)]
pub struct Node<K, V> {
    key: Option<K>,
    value: Option<V>,
    prev: usize,
    next: usize,
}

impl<K: Copy, V: Copy> Clone for Node<K, V> {
    fn clone(&self) -> (r: Self)
        ensures
            r == *self,
    {
        *self
    }
}

impl<K, V> Node<K, V> {
    /// The entry that this slot holds.
    pub closed spec fn entry(self) -> (K, V) {
        (self.key->Some_0, self.value->Some_0)
    }
}

/// A cache of at most `capacity` entries; adding a new key to a full cache evicts
/// the least recently used entry.
pub struct LRUCache<K, V> {
    hashmap: HashMap<K, usize>,
    nodes: Vec<Node<K, V>>,
    free: Vec<usize>,
    cap: usize,
    len: usize,
    /// The slots of the entries, most recently used first.
    order: Ghost<Seq<usize>>,
}

impl<K, V> View for LRUCache<K, V> {
    /// The entries, most recently used first.
    type V = Seq<(K, V)>;

    closed spec fn view(&self) -> Seq<(K, V)> {
        self.order@.map_values(|s: usize| self.nodes@[s as int].entry())
    }
}

impl<K, V> LRUCache<K, V> {
    /// The slot before the entry at position `i` of the order.
    spec fn prev_slot(&self, i: int) -> usize {
        if i == 0 {
            HEAD
        } else {
            self.order@[i - 1]
        }
    }

    /// The slot after the entry at position `i` of the order.
    spec fn next_slot(&self, i: int) -> usize {
        if i + 1 == self.order@.len() {
            TAIL
        } else {
            self.order@[i + 1]
        }
    }

    /// The sentinels bound a list whose entries are the slots of `order`, in that order.
    spec fn links_ok(&self) -> bool {
        let order = self.order@;
        let nodes = self.nodes@;
        &&& nodes.len() >= 2
        &&& forall|i: int| 0 <= i < order.len() ==> 2 <= #[trigger] order[i] < nodes.len()
        &&& forall|i: int, j: int|
            0 <= i < order.len() && 0 <= j < order.len() && i != j ==> #[trigger] order[i]
                != #[trigger] order[j]
        &&& forall|i: int|
            0 <= i < order.len() ==> {
                let n = #[trigger] nodes[order[i] as int];
                &&& n.prev == self.prev_slot(i)
                &&& n.next == self.next_slot(i)
                &&& n.key is Some
                &&& n.value is Some
            }
        &&& nodes[HEAD as int].next == (if order.len() == 0 {
            TAIL
        } else {
            order[0]
        })
        &&& nodes[TAIL as int].prev == (if order.len() == 0 {
            HEAD
        } else {
            order[order.len() - 1]
        })
    }

    /// The free slots are distinct slots of the arena that hold no entry.
    spec fn free_ok(&self) -> bool {
        let free = self.free@;
        &&& forall|i: int|
            0 <= i < free.len() ==> 2 <= #[trigger] free[i] < self.nodes@.len()
                && !self.order@.contains(free[i])
        &&& forall|i: int, j: int|
            0 <= i < free.len() && 0 <= j < free.len() && i != j ==> #[trigger] free[i]
                != #[trigger] free[j]
    }

    /// The index maps the key of each entry to its slot, and nothing else.
    spec fn index_ok(&self) -> bool {
        let m = self.hashmap@;
        &&& forall|i: int|
            0 <= i < self.order@.len() ==> {
                let k = (#[trigger] self.nodes@[self.order@[i] as int]).key->Some_0;
                m.contains_key(k) && m[k] == self.order@[i]
            }
        &&& forall|k: K|
            #[trigger] m.contains_key(k) ==> self.order@.contains(m[k]) && self.nodes@[m[k] as int].key
                == Some(k)
    }

    /// The cache is well formed.
    pub closed spec fn inv(&self) -> bool {
        &&& obeys_key_model::<K>()
        &&& self.links_ok()
        &&& self.free_ok()
        &&& self.index_ok()
        &&& self.len == self.order@.len()
        &&& self.order@.len() <= self.cap
    }

    /// The number of entries the cache may hold.
    pub closed spec fn capacity(&self) -> nat {
        self.cap as nat
    }

    /// The index stays right when the list holds the same slots, with the same keys.
    proof fn lemma_index_kept(&self, before: &Self)
        requires
            before.index_ok(),
            self.hashmap@ == before.hashmap@,
            self.nodes@.len() == before.nodes@.len(),
            forall|t: int|
                0 <= t < before.nodes@.len() ==> (#[trigger] self.nodes@[t]).key
                    == before.nodes@[t].key,
            forall|x: usize| self.order@.contains(x) <==> before.order@.contains(x),
            forall|i: int| 0 <= i < before.order@.len() ==> #[trigger] before.order@[i] < before.nodes@.len(),
        ensures
            self.index_ok(),
    {
        assert forall|j: int| 0 <= j < self.order@.len() implies {
            let k = (#[trigger] self.nodes@[self.order@[j] as int]).key->Some_0;
            self.hashmap@.contains_key(k) && self.hashmap@[k] == self.order@[j]
        } by {
            let x = self.order@[j];
            assert(self.order@.contains(x));
            let j0 = choose|j0: int| 0 <= j0 < before.order@.len() && before.order@[j0] == x;
            assert(before.nodes@[before.order@[j0] as int].key == self.nodes@[x as int].key);
        }
    }

    /// The entries of a well-formed cache have distinct keys and fit its capacity.
    pub proof fn lemma_valid(&self)
        requires
            self.inv(),
        ensures
            valid_entries(self@, self.capacity()),
    {
        self.lemma_view();
    }

    /// How the entries relate to the slots and to the index.
    proof fn lemma_view(&self)
        requires
            self.inv(),
        ensures
            self@.len() == self.order@.len(),
            forall|i: int|
                0 <= i < self.order@.len() ==> #[trigger] self@[i] == self.nodes@[self.order@[i] as int].entry(),
            keys_distinct(self@),
            forall|k: K| #[trigger] self.hashmap@.contains_key(k) == has_key(self@, k),
            forall|k: K|
                #[trigger] self.hashmap@.contains_key(k) ==> 0 <= index_of(self@, k) < self@.len()
                    && self.order@[index_of(self@, k)] == self.hashmap@[k],
    {
        let v = self@;
        let order = self.order@;
        let m = self.hashmap@;
        assert forall|i: int, j: int|
            0 <= i < v.len() && 0 <= j < v.len() && i != j implies (#[trigger] v[i]).0 != (
            #[trigger] v[j]).0 by {
            if v[i].0 == v[j].0 {
                assert(self.nodes@[order[i] as int].key->Some_0 == v[i].0);
                assert(self.nodes@[order[j] as int].key->Some_0 == v[j].0);
                assert(order[i] != order[j]);
            }
        }
        assert forall|k: K| #[trigger] m.contains_key(k) implies has_key(v, k) && 0 <= index_of(v, k)
            < v.len() && order[index_of(v, k)] == m[k] by {
            let i = choose|i: int| 0 <= i < order.len() && order[i] == m[k];
            assert(v[i].0 == k);
            let j = index_of(v, k);
            assert(self.nodes@[order[j] as int].key->Some_0 == v[j].0);
        }
        assert forall|k: K| has_key(v, k) implies #[trigger] m.contains_key(k) by {
            let i = choose|i: int| 0 <= i < v.len() && (#[trigger] v[i]).0 == k;
            assert(self.nodes@[order[i] as int].key->Some_0 == v[i].0);
        }
    }
}

impl<K: Hash + Eq + Copy, V: Copy> LRUCache<K, V> {
    /// An empty cache that holds at most `cap` entries. With `cap == 0` every `add`
    /// of a new key evicts that same entry at once. The key type's `==`, hashing and
    /// copies must agree with equality of keys, as they do for the integer types.
    pub fn new(cap: usize) -> (r: Self)
        requires
            obeys_key_model::<K>(),
        ensures
            r.inv(),
            r@ == Seq::<(K, V)>::empty(),
            r.capacity() == cap,
    {
        let mut nodes: Vec<Node<K, V>> = Vec::new();
        nodes.push(Node { key: None, value: None, prev: HEAD, next: TAIL });
        nodes.push(Node { key: None, value: None, prev: HEAD, next: TAIL });
        let r = LRUCache {
            hashmap: HashMap::new(),
            nodes,
            free: Vec::new(),
            cap,
            len: 0,
            order: Ghost(Seq::empty()),
        };
        assert(r@ =~= Seq::<(K, V)>::empty());
        r
    }

    /// The value under `key`, without changing the order of the entries.
    pub fn peek(&mut self, key: K) -> (r: Option<V>)
        requires
            old(self).inv(),
        ensures
            *final(self) == *old(self),
            r == lookup(old(self)@, key),
    {
        proof {
            self.lemma_view();
        }
        match self.hashmap.get(&key) {
            Some(s) => {
                let n = self.nodes[*s];
                n.value
            },
            None => None,
        }
    }

    /// The value under `key`; its entry becomes the most recently used.
    pub fn get(&mut self, key: K) -> (r: Option<V>)
        requires
            old(self).inv(),
        ensures
            final(self).inv(),
            final(self).capacity() == old(self).capacity(),
            final(self)@ == touched(old(self)@, key),
            r == lookup(old(self)@, key),
    {
        proof {
            self.lemma_view();
        }
        let found = match self.hashmap.get(&key) {
            Some(s) => Some(*s),
            None => None,
        };
        match found {
            Some(s) => {
                let ghost i = index_of(self@, key);
                self.promote_slot(s, Ghost(i));
                proof {
                    self.lemma_index_kept(&*old(self));
                    assert(self@ =~= touched(old(self)@, key));
                }
                let n = self.nodes[s];
                n.value
            },
            None => None,
        }
    }

    /// Stores `value` under `key` and makes that entry the most recently used. When `key`
    /// is new and the cache already holds `capacity` entries, the least recently used
    /// entry is evicted and handed back.
    pub fn add(&mut self, key: K, value: V) -> (r: Option<(K, V)>)
        requires
            old(self).inv(),
        ensures
            final(self).inv(),
            final(self).capacity() == old(self).capacity(),
            final(self)@ == added(old(self)@, old(self).capacity(), key, value),
            r == evicted(old(self)@, old(self).capacity(), key, value),
    {
        proof {
            self.lemma_view();
        }
        let found = match self.hashmap.get(&key) {
            Some(s) => Some(*s),
            None => None,
        };
        match found {
            Some(s) => {
                let ghost i = index_of(self@, key);
                let n = self.nodes[s];
                self.nodes.set(s, Node { key: n.key, value: Some(value), prev: n.prev, next: n.next });
                proof {
                    let order = self.order@;
                    assert forall|j: int| 0 <= j < order.len() implies {
                        let m = #[trigger] self.nodes@[order[j] as int];
                        &&& m.prev == self.prev_slot(j)
                        &&& m.next == self.next_slot(j)
                        &&& m.key is Some
                        &&& m.value is Some
                    } by {
                        assert(old(self).nodes@[order[j] as int].prev == self.prev_slot(j));
                    }
                }
                let ghost mid = *self;
                self.promote_slot(s, Ghost(i));
                proof {
                    self.lemma_index_kept(&mid);
                    assert(self@ =~= added(old(self)@, old(self).capacity(), key, value));
                }
                None
            },
            None => {
                if self.len < self.cap {
                    self.insert_front(key, value);
                    None
                } else if self.len == 0 {
                    proof {
                        assert(self@ =~= added(old(self)@, old(self).capacity(), key, value));
                    }
                    Some((key, value))
                } else {
                    let last = self.nodes[TAIL].prev;
                    let ghost before = self@;
                    let n = self.detach(last, Ghost(self.order@.len() - 1));
                    proof {
                        assert forall|j: int| 0 <= j < self@.len() implies (#[trigger] self@[j]).0
                            != key by {
                            assert(self@[j] == before[j]);
                        }
                    }
                    self.insert_front(key, value);
                    proof {
                        assert(self@ =~= added(old(self)@, old(self).capacity(), key, value));
                    }
                    Some((n.key.unwrap(), n.value.unwrap()))
                }
            },
        }
    }

    /// Takes the entry under `key` out of the cache and hands back its value.
    pub fn remove(&mut self, key: K) -> (r: Option<V>)
        requires
            old(self).inv(),
        ensures
            final(self).inv(),
            final(self).capacity() == old(self).capacity(),
            final(self)@ == removed(old(self)@, key),
            r == lookup(old(self)@, key),
    {
        proof {
            self.lemma_view();
        }
        let found = match self.hashmap.get(&key) {
            Some(s) => Some(*s),
            None => None,
        };
        match found {
            Some(s) => {
                let n = self.detach(s, Ghost(index_of(self@, key)));
                n.value
            },
            None => None,
        }
    }

    /// The value of the most recently used entry; `None` when the cache is empty.
    pub fn get_first(&mut self) -> (r: Option<V>)
        requires
            old(self).inv(),
        ensures
            *final(self) == *old(self),
            r == first_value(old(self)@),
    {
        proof {
            self.lemma_view();
        }
        if self.len == 0 {
            None
        } else {
            let s = self.nodes[HEAD].next;
            proof {
                assert(self.order@[0] < self.nodes@.len());
            }
            let n = self.nodes[s];
            n.value
        }
    }

    /// The value of the least recently used entry; `None` when the cache is empty.
    pub fn get_last(&mut self) -> (r: Option<V>)
        requires
            old(self).inv(),
        ensures
            *final(self) == *old(self),
            r == last_value(old(self)@),
    {
        proof {
            self.lemma_view();
        }
        if self.len == 0 {
            None
        } else {
            let s = self.nodes[TAIL].prev;
            proof {
                assert(self.order@[self.order@.len() - 1] < self.nodes@.len());
            }
            let n = self.nodes[s];
            n.value
        }
    }

    /// The number of entries.
    pub fn len(&mut self) -> (r: usize)
        requires
            old(self).inv(),
        ensures
            *final(self) == *old(self),
            r == old(self)@.len(),
    {
        self.len
    }

    /// Whether the cache holds no entry.
    pub fn is_empty(&mut self) -> (r: bool)
        requires
            old(self).inv(),
        ensures
            *final(self) == *old(self),
            r == (old(self)@.len() == 0),
    {
        self.len == 0
    }
}

// Private operations on the list, the free slots and the index.
impl<K: Hash + Eq + Copy, V: Copy> LRUCache<K, V> {
    /// Takes the entry at position `i` of the order out of the list; every slot keeps
    /// its key and value.
    fn unlink(&mut self, s: usize, Ghost(i): Ghost<int>)
        requires
            old(self).links_ok(),
            0 <= i < old(self).order@.len(),
            old(self).order@[i] == s,
        ensures
            final(self).links_ok(),
            final(self).order@ == old(self).order@.remove(i),
            forall|x: usize|
                final(self).order@.contains(x) <==> (old(self).order@.contains(x) && x != s),
            final(self).nodes@.len() == old(self).nodes@.len(),
            forall|t: int|
                0 <= t < old(self).nodes@.len() ==> (#[trigger] final(self).nodes@[t]).key
                    == old(self).nodes@[t].key && final(self).nodes@[t].value
                    == old(self).nodes@[t].value,
            final(self).hashmap == old(self).hashmap,
            final(self).free == old(self).free,
            final(self).cap == old(self).cap,
            final(self).len == old(self).len,
    {
        let n = self.nodes[s];
        let mut p = self.nodes[n.prev];
        p.next = n.next;
        self.nodes.set(n.prev, p);
        let mut q = self.nodes[n.next];
        q.prev = n.prev;
        self.nodes.set(n.next, q);
        self.order = Ghost(self.order@.remove(i));
        proof {
            let o = old(self).order@;
            let order = self.order@;
            assert forall|j: int| 0 <= j < order.len() implies {
                let m = #[trigger] self.nodes@[order[j] as int];
                &&& m.prev == self.prev_slot(j)
                &&& m.next == self.next_slot(j)
                &&& m.key is Some
                &&& m.value is Some
            } by {
                if j < i {
                    assert(order[j] == o[j]);
                } else {
                    assert(order[j] == o[j + 1]);
                }
            }
            assert forall|a: int, b: int|
                0 <= a < order.len() && 0 <= b < order.len() && a != b implies #[trigger] order[a]
                    != #[trigger] order[b] by {
                let a1 = if a < i { a } else { a + 1 };
                let b1 = if b < i { b } else { b + 1 };
                assert(order[a] == o[a1] && order[b] == o[b1]);
            }
            assert forall|x: usize| order.contains(x) <==> (o.contains(x) && x != s) by {
                if o.contains(x) && x != s {
                    let j = choose|j: int| 0 <= j < o.len() && o[j] == x;
                    if j < i {
                        assert(order[j] == x);
                    } else {
                        assert(order[j - 1] == x);
                    }
                }
                if order.contains(x) {
                    let j = choose|j: int| 0 <= j < order.len() && order[j] == x;
                    if j < i {
                        assert(o[j] == x);
                    } else {
                        assert(o[j + 1] == x);
                    }
                }
            }
        }
    }

    /// Puts slot `s`, which holds an entry but is not in the list, at its front.
    fn link_front(&mut self, s: usize)
        requires
            old(self).links_ok(),
            2 <= s < old(self).nodes@.len(),
            !old(self).order@.contains(s),
            old(self).nodes@[s as int].key is Some,
            old(self).nodes@[s as int].value is Some,
        ensures
            final(self).links_ok(),
            final(self).order@ == seq![s] + old(self).order@,
            final(self).nodes@.len() == old(self).nodes@.len(),
            forall|t: int|
                0 <= t < old(self).nodes@.len() ==> (#[trigger] final(self).nodes@[t]).key
                    == old(self).nodes@[t].key && final(self).nodes@[t].value
                    == old(self).nodes@[t].value,
            final(self).hashmap == old(self).hashmap,
            final(self).free == old(self).free,
            final(self).cap == old(self).cap,
            final(self).len == old(self).len,
    {
        let first = self.nodes[HEAD].next;
        proof {
            if self.order@.len() > 0 {
                assert(2 <= self.order@[0]);
            }
        }
        let mut n = self.nodes[s];
        n.prev = HEAD;
        n.next = first;
        self.nodes.set(s, n);
        let mut f = self.nodes[first];
        f.prev = s;
        self.nodes.set(first, f);
        let mut h = self.nodes[HEAD];
        h.next = s;
        self.nodes.set(HEAD, h);
        self.order = Ghost(seq![s] + self.order@);
        proof {
            let o = old(self).order@;
            let order = self.order@;
            assert forall|j: int| 0 <= j < order.len() implies {
                let m = #[trigger] self.nodes@[order[j] as int];
                &&& m.prev == self.prev_slot(j)
                &&& m.next == self.next_slot(j)
                &&& m.key is Some
                &&& m.value is Some
            } by {
                if j > 0 {
                    assert(order[j] == o[j - 1]);
                    assert(o[j - 1] != s);
                }
            }
            assert forall|a: int, b: int|
                0 <= a < order.len() && 0 <= b < order.len() && a != b implies #[trigger] order[a]
                    != #[trigger] order[b] by {
                if a > 0 {
                    assert(order[a] == o[a - 1]);
                }
                if b > 0 {
                    assert(order[b] == o[b - 1]);
                }
            }
        }
    }

    /// Moves the entry at position `i` of the order to the front of the list.
    fn promote_slot(&mut self, s: usize, Ghost(i): Ghost<int>)
        requires
            old(self).links_ok(),
            0 <= i < old(self).order@.len(),
            old(self).order@[i] == s,
        ensures
            final(self).links_ok(),
            final(self).order@ == seq![s] + old(self).order@.remove(i),
            forall|x: usize| final(self).order@.contains(x) <==> old(self).order@.contains(x),
            final(self).nodes@.len() == old(self).nodes@.len(),
            forall|t: int|
                0 <= t < old(self).nodes@.len() ==> (#[trigger] final(self).nodes@[t]).key
                    == old(self).nodes@[t].key && final(self).nodes@[t].value
                    == old(self).nodes@[t].value,
            final(self).hashmap == old(self).hashmap,
            final(self).free == old(self).free,
            final(self).cap == old(self).cap,
            final(self).len == old(self).len,
    {
        self.unlink(s, Ghost(i));
        proof {
            assert forall|j: int| 0 <= j < self.order@.len() implies self.order@[j] != s by {
                if j < i {
                    assert(self.order@[j] == old(self).order@[j]);
                } else {
                    assert(self.order@[j] == old(self).order@[j + 1]);
                }
            }
        }
        self.link_front(s);
        proof {
            let o = old(self).order@;
            let order = self.order@;
            assert forall|x: usize| order.contains(x) <==> o.contains(x) by {
                if o.contains(x) {
                    let j = choose|j: int| 0 <= j < o.len() && o[j] == x;
                    if j < i {
                        assert(order[j + 1] == x);
                    } else if j > i {
                        assert(order[j] == x);
                    } else {
                        assert(order[0] == x);
                    }
                }
                if order.contains(x) {
                    let j = choose|j: int| 0 <= j < order.len() && order[j] == x;
                    if j == 0 {
                        assert(o[i] == x);
                    } else if j - 1 < i {
                        assert(o[j - 1] == x);
                    } else {
                        assert(o[j] == x);
                    }
                }
            }
        }
    }

    /// Empties slot `s`, which holds no entry of the list, and hands it to the free list.
    fn release(&mut self, s: usize)
        requires
            old(self).links_ok(),
            old(self).free_ok(),
            2 <= s < old(self).nodes@.len(),
            !old(self).order@.contains(s),
            !old(self).free@.contains(s),
        ensures
            final(self).links_ok(),
            final(self).free_ok(),
            final(self).order == old(self).order,
            final(self).nodes@.len() == old(self).nodes@.len(),
            forall|t: int|
                0 <= t < old(self).nodes@.len() && t != s ==> #[trigger] final(self).nodes@[t]
                    == old(self).nodes@[t],
            final(self).nodes@[s as int].key is None,
            final(self).hashmap == old(self).hashmap,
            final(self).cap == old(self).cap,
            final(self).len == old(self).len,
    {
        let mut n = self.nodes[s];
        n.key = None;
        n.value = None;
        self.nodes.set(s, n);
        self.free.push(s);
        proof {
            let order = self.order@;
            assert forall|j: int| 0 <= j < order.len() implies #[trigger] self.nodes@[order[j] as int]
                == old(self).nodes@[order[j] as int] by {
                assert(order[j] != s);
            }
            let free = self.free@;
            assert forall|a: int, b: int|
                0 <= a < free.len() && 0 <= b < free.len() && a != b implies #[trigger] free[a]
                    != #[trigger] free[b] by {
                if a < free.len() - 1 && b == free.len() - 1 {
                    assert(old(self).free@.contains(free[a]));
                }
                if b < free.len() - 1 && a == free.len() - 1 {
                    assert(old(self).free@.contains(free[b]));
                }
            }
        }
    }

    /// A slot that holds no entry of the list, now holding `(k, v)`.
    fn occupy(&mut self, k: K, v: V) -> (s: usize)
        requires
            old(self).links_ok(),
            old(self).free_ok(),
        ensures
            final(self).links_ok(),
            final(self).free_ok(),
            2 <= s < final(self).nodes@.len(),
            !final(self).order@.contains(s),
            forall|j: int| 0 <= j < final(self).free@.len() ==> #[trigger] final(self).free@[j] != s,
            final(self).nodes@[s as int].key == Some(k),
            final(self).nodes@[s as int].value == Some(v),
            final(self).order == old(self).order,
            final(self).nodes@.len() >= old(self).nodes@.len(),
            forall|t: int|
                0 <= t < old(self).nodes@.len() && t != s ==> #[trigger] final(self).nodes@[t]
                    == old(self).nodes@[t],
            final(self).hashmap == old(self).hashmap,
            final(self).cap == old(self).cap,
            final(self).len == old(self).len,
    {
        match self.free.pop() {
            Some(s) => {
                proof {
                    assert(old(self).free@[old(self).free@.len() - 1] == s);
                }
                let n = self.nodes[s];
                self.nodes.set(s, Node { key: Some(k), value: Some(v), prev: n.prev, next: n.next });
                proof {
                    let order = self.order@;
                    assert forall|j: int| 0 <= j < order.len() implies #[trigger] self.nodes@[order[j] as int]
                        == old(self).nodes@[order[j] as int] by {
                        if order[j] == s {
                            assert(order.contains(s));
                        }
                    }
                    let free = self.free@;
                    assert forall|a: int| 0 <= a < free.len() implies #[trigger] free[a] != s by {
                        assert(old(self).free@[a] == free[a]);
                    }
                }
                s
            },
            None => {
                let s = self.nodes.len();
                self.nodes.push(Node { key: Some(k), value: Some(v), prev: HEAD, next: TAIL });
                proof {
                    let order = self.order@;
                    assert forall|j: int| 0 <= j < order.len() implies #[trigger] self.nodes@[order[j] as int]
                        == old(self).nodes@[order[j] as int] by {
                        assert(order[j] < s);
                    }
                    if order.contains(s) {
                        let j = choose|j: int| 0 <= j < order.len() && order[j] == s;
                        assert(order[j] < s);
                    }
                    assert forall|j: int| 0 <= j < self.free@.len() implies #[trigger] self.free@[j]
                        != s by {
                        assert(self.free@[j] < s);
                    }
                }
                s
            },
        }
    }

    /// Takes the entry at position `i` out of the cache and hands back its slot as it was.
    fn detach(&mut self, s: usize, Ghost(i): Ghost<int>) -> (n: Node<K, V>)
        requires
            old(self).inv(),
            0 <= i < old(self).order@.len(),
            old(self).order@[i] == s,
        ensures
            final(self).inv(),
            final(self)@ == old(self)@.remove(i),
            final(self).cap == old(self).cap,
            n.key is Some,
            n.value is Some,
            n.entry() == old(self)@[i],
    {
        proof {
            self.lemma_view();
        }
        let n = self.nodes[s];
        let k = n.key.unwrap();
        self.unlink(s, Ghost(i));
        self.hashmap.remove(&k);
        proof {
            assert(!self.order@.contains(s));
            if self.free@.contains(s) {
                let j = choose|j: int| 0 <= j < self.free@.len() && self.free@[j] == s;
                assert(old(self).order@.contains(s));
            }
        }
        self.release(s);
        self.len = self.len - 1;
        proof {
            let o = old(self).order@;
            let order = self.order@;
            let m = self.hashmap@;
            assert forall|j: int| 0 <= j < order.len() implies {
                let k2 = (#[trigger] self.nodes@[order[j] as int]).key->Some_0;
                m.contains_key(k2) && m[k2] == order[j]
            } by {
                let j0 = if j < i { j } else { j + 1 };
                assert(order[j] == o[j0]);
                assert(o[j0] != s);
            }
            assert forall|k2: K| #[trigger] m.contains_key(k2) implies order.contains(m[k2])
                && self.nodes@[m[k2] as int].key == Some(k2) by {
                let x = m[k2];
                assert(old(self).hashmap@.contains_key(k2));
                assert(o.contains(x));
                assert(x != s);
            }
            assert(self@ =~= old(self)@.remove(i));
        }
        n
    }

    /// Puts the new entry `(k, v)` in front of the others.
    fn insert_front(&mut self, k: K, v: V)
        requires
            old(self).inv(),
            !has_key(old(self)@, k),
            old(self).len < old(self).cap,
        ensures
            final(self).inv(),
            final(self)@ == seq![(k, v)] + old(self)@,
            final(self).cap == old(self).cap,
    {
        proof {
            self.lemma_view();
        }
        let s = self.occupy(k, v);
        self.link_front(s);
        self.hashmap.insert(k, s);
        self.len = self.len + 1;
        proof {
            let o = old(self).order@;
            let order = self.order@;
            let m = self.hashmap@;
            assert forall|j: int| 0 <= j < order.len() implies {
                let k2 = (#[trigger] self.nodes@[order[j] as int]).key->Some_0;
                m.contains_key(k2) && m[k2] == order[j]
            } by {
                if j > 0 {
                    assert(order[j] == o[j - 1]);
                    assert(o[j - 1] != s);
                }
            }
            assert forall|k2: K| #[trigger] m.contains_key(k2) implies order.contains(m[k2])
                && self.nodes@[m[k2] as int].key == Some(k2) by {
                if k2 == k {
                    assert(order[0] == s);
                } else {
                    let x = m[k2];
                    assert(old(self).hashmap@.contains_key(k2));
                    let j = choose|j: int| 0 <= j < o.len() && o[j] == x;
                    assert(order[j + 1] == x);
                    assert(x != s);
                }
            }
            assert forall|j: int| 0 <= j < self.free@.len() implies !order.contains(#[trigger] self.free@[j]) by {
                let x = self.free@[j];
                if order.contains(x) {
                    let a = choose|a: int| 0 <= a < order.len() && order[a] == x;
                    if a > 0 {
                        assert(o[a - 1] == x);
                    }
                }
            }
            assert(self@ =~= seq![(k, v)] + old(self)@);
        }
    }
}

} // verus!
