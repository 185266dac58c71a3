//! The map itself: an arena of nodes linked into a doubly linked chain in
//! insertion order, and a hash index from each key to the slot of its node.
use std::collections::HashMap;
use std::hash::Hash;
use vstd::prelude::*;
use vstd::std_specs::hash::obeys_key_model;

use crate::iter::Iter;
use crate::model::{inserted, lemma_find, lemma_find_at, lookup, removed, unique_keys};

verus! {

broadcast use vstd::std_specs::hash::group_hash_axioms;

/// One entry of the chain. `prev` and `next` are slots of the neighbouring
/// nodes; `None` marks either end of the chain.
#[derive(Clone, Copy)]
struct Node<K, V> {
    key: K,
    value: V,
    prev: Option<usize>,
    next: Option<usize>,
}

/// A hash map that remembers the order in which its keys were first inserted.
pub struct LinkedHashMap<K, V> {
    slots: Vec<Node<K, V>>,
    index: HashMap<K, usize>,
    first: Option<usize>,
    last: Option<usize>,
    /// The chain as the sequence of slots from first to last.
    order: Ghost<Seq<usize>>,
    /// For each slot, its position in `order`.
    pos: Ghost<Seq<int>>,
}

/// The slot at position `i` of the chain `order`, or `None` past either end.
spec fn slot_at(order: Seq<usize>, i: int) -> Option<usize> {
    if 0 <= i < order.len() {
        Some(order[i])
    } else {
        None
    }
}

/// The nodes in `slots` form the chain `c`: each links to its neighbours in
/// `c`, and `first` / `last` name its ends.
spec fn linked<K, V>(
    slots: Seq<Node<K, V>>,
    first: Option<usize>,
    last: Option<usize>,
    c: Seq<usize>,
) -> bool {
    &&& forall|i: int| 0 <= i < c.len() ==> #[trigger] c[i] < slots.len()
    &&& forall|i: int|
        0 <= i < c.len() ==> (#[trigger] slots[c[i] as int]).prev == slot_at(c, i - 1) && slots[c[i] as int].next
            == slot_at(c, i + 1)
    &&& first == slot_at(c, 0)
    &&& last == slot_at(c, c.len() - 1)
}

/// Slot `x` after the node in slot `t` has moved into slot `s`.
spec fn rename(x: usize, t: usize, s: usize) -> usize {
    if x == t {
        s
    } else {
        x
    }
}

impl<K, V> View for LinkedHashMap<K, V> {
    type V = Seq<(K, V)>;

    /// The entries in chain order.
    closed spec fn view(&self) -> Seq<(K, V)> {
        Seq::new(
            self.order@.len(),
            |i: int| (self.slots@[self.order@[i] as int].key, self.slots@[self.order@[i] as int].value),
        )
    }
}

impl<K, V> LinkedHashMap<K, V> {
    /// `order` and `pos` are inverse bijections between the slots and the
    /// positions of the chain.
    closed spec fn wf_order(&self) -> bool {
        let n = self.slots@.len();
        &&& self.order@.len() == n
        &&& self.pos@.len() == n
        &&& forall|i: int| 0 <= i < n ==> #[trigger] self.order@[i] < n && self.pos@[self.order@[i] as int] == i
        &&& forall|s: int| 0 <= s < n ==> 0 <= #[trigger] self.pos@[s] < n && self.order@[self.pos@[s]] == s
    }

    /// Each node links to its neighbours in the chain, and `first` / `last`
    /// name the ends.
    closed spec fn wf_links(&self) -> bool {
        linked(self.slots@, self.first, self.last, self.order@)
    }

    /// The index maps the key of every node to that node's slot, and nothing else.
    closed spec fn wf_index(&self) -> bool {
        let n = self.slots@.len();
        &&& forall|s: int| 0 <= s < n ==> self.index@.contains_key(#[trigger] self.slots@[s].key)
            && self.index@[self.slots@[s].key] == s
        &&& forall|k: K| #[trigger] self.index@.contains_key(k) ==> self.index@[k] < n
            && self.slots@[self.index@[k] as int].key == k
    }

    /// The invariant that every operation keeps.
    pub closed spec fn wf(&self) -> bool {
        &&& obeys_key_model::<K>()
        &&& self.wf_order()
        &&& self.wf_links()
        &&& self.wf_index()
    }

    /// The set of keys held by the hash index.
    pub closed spec fn indexed_keys(&self) -> Set<K> {
        self.index@.dom()
    }

    proof fn lemma_view_unique(&self)
        requires
            self.wf(),
        ensures
            unique_keys(self@),
            self@.len() == self.slots@.len(),
    {
        assert forall|i: int, j: int|
            0 <= i < self@.len() && 0 <= j < self@.len() && i != j implies #[trigger] self@[i].0
            != #[trigger] self@[j].0 by {
            let si = self.order@[i] as int;
            let sj = self.order@[j] as int;
            assert(self.index@[self.slots@[si].key] == si);
            assert(self.index@[self.slots@[sj].key] == sj);
            assert(self.pos@[si] == i);
        }
    }

    /// The keys held by the hash index are exactly the keys met when walking
    /// the chain, and the walk meets no key twice.
    pub proof fn lemma_index_matches_chain(&self)
        requires
            self.wf(),
        ensures
            self.indexed_keys() == self@.map_values(|e: (K, V)| e.0).to_set(),
            unique_keys(self@),
    {
        self.lemma_view_unique();
        let ks = self@.map_values(|e: (K, V)| e.0);
        assert forall|k: K| self.indexed_keys().contains(k) implies ks.to_set().contains(k) by {
            let i = self.pos@[self.index@[k] as int];
            assert(ks[i] == k);
        }
        assert forall|k: K| ks.to_set().contains(k) implies self.indexed_keys().contains(k) by {
            let i = choose|i: int| 0 <= i < ks.len() && ks[i] == k;
            assert(self.index@.contains_key(self.slots@[self.order@[i] as int].key));
        }
        assert(self.indexed_keys() =~= ks.to_set());
    }

    /// An empty map.
    pub fn new() -> (m: Self)
        requires
            obeys_key_model::<K>(),
        ensures
            m.wf(),
            m@ == Seq::<(K, V)>::empty(),
    {
        LinkedHashMap {
            slots: Vec::new(),
            index: HashMap::new(),
            first: None,
            last: None,
            order: Ghost(Seq::empty()),
            pos: Ghost(Seq::empty()),
        }
    }

    /// The number of entries.
    pub fn len(&self) -> (r: usize)
        requires
            self.wf(),
        ensures
            r == self@.len(),
    {
        self.slots.len()
    }

    /// Whether the map holds no entry.
    pub fn is_empty(&self) -> (r: bool)
        requires
            self.wf(),
        ensures
            r == (self@.len() == 0),
    {
        self.slots.len() == 0
    }
}

impl<K: Copy + Eq + Hash, V: Copy> LinkedHashMap<K, V> {
    /// The value stored under `key`, if any.
    pub fn get(&self, key: &K) -> (r: Option<V>)
        requires
            self.wf(),
        ensures
            r == lookup(self@, *key),
    {
        proof {
            self.lemma_view_unique();
            lemma_find(self@, *key);
        }
        match self.index.get(key) {
            None => None,
            Some(s) => {
                let s = *s;
                proof {
                    let p = self.pos@[s as int];
                    assert(self@[p].0 == *key);
                    lemma_find_at(self@, p);
                }
                Some(self.slots[s].value)
            },
        }
    }

    /// Inserts `value` under `key`. A key already present keeps its place in
    /// the order and takes the new value; a new key goes to the end.
    pub fn insert(&mut self, key: K, value: V)
        requires
            old(self).wf(),
            old(self)@.len() < usize::MAX,
        ensures
            final(self).wf(),
            final(self)@ == inserted(old(self)@, key, value),
            final(self)@.len() <= old(self)@.len() + 1,
    {
        proof {
            self.lemma_view_unique();
            lemma_find(self@, key);
        }
        match self.index.get(&key) {
            Some(s) => {
                let s = *s;
                let ghost p = self.pos@[s as int];
                proof {
                    assert(self@[p].0 == key);
                    lemma_find_at(self@, p);
                }
                self.slots[s].value = value;
                assert(self@ =~= old(self)@.update(p, (key, value)));
            },
            None => {
                proof {
                    assert forall|i: int| 0 <= i < self@.len() implies #[trigger] self@[i].0 != key by {
                        assert(self.index@.contains_key(self.slots@[self.order@[i] as int].key));
                    }
                }
                let n = self.slots.len();
                let node = Node { key, value, prev: self.last, next: None };
                match self.last {
                    Some(l) => {
                        self.slots[l].next = Some(n);
                    },
                    None => {
                        self.first = Some(n);
                    },
                }
                self.slots.push(node);
                self.index.insert(key, n);
                self.last = Some(n);
                proof {
                    let old_order = self.order@;
                    self.order@ = old_order.push(n);
                    self.pos@ = self.pos@.push(n as int);
                    assert(self.wf_order());
                    assert forall|i: int| 0 <= i <= n implies (#[trigger] self.slots@[self.order@[i] as int]).prev
                        == slot_at(self.order@, i - 1) && self.slots@[self.order@[i] as int].next
                        == slot_at(self.order@, i + 1) by {
                        if i < n {
                            assert(self.order@[i] == old_order[i]);
                        }
                    }
                    assert(self.wf_links());
                    assert(self.wf_index());
                    assert(self@ =~= old(self)@.push((key, value)));
                    assert(self@.len() == old(self)@.len() + 1);
                }
            },
        }
    }

    /// Splices the node in slot `s` out of the chain and returns it. The
    /// slot itself stays, linked to by no other node.
    fn unlink(&mut self, s: usize) -> (node: Node<K, V>)
        requires
            old(self).wf(),
            s < old(self).slots@.len(),
        ensures
            node == old(self).slots@[s as int],
            linked(
                final(self).slots@,
                final(self).first,
                final(self).last,
                old(self).order@.remove(old(self).pos@[s as int]),
            ),
            final(self).slots@.len() == old(self).slots@.len(),
            forall|x: int|
                0 <= x < old(self).slots@.len() ==> (#[trigger] final(self).slots@[x]).key == old(self).slots@[x].key
                    && final(self).slots@[x].value == old(self).slots@[x].value,
            final(self).index == old(self).index,
            final(self).order == old(self).order,
            final(self).pos == old(self).pos,
    {
        let ghost o = self.order@;
        let ghost n = o.len() as int;
        let ghost p = self.pos@[s as int];
        let ghost q = o.remove(p);
        let node = self.slots[s];
        match node.prev {
            Some(a) => {
                self.slots[a].next = node.next;
            },
            None => {
                self.first = node.next;
            },
        }
        match node.next {
            Some(b) => {
                self.slots[b].prev = node.prev;
            },
            None => {
                self.last = node.prev;
            },
        }
        proof {
            assert forall|i: int| 0 <= i < n - 1 implies (#[trigger] self.slots@[q[i] as int]).prev == slot_at(q, i - 1)
                && self.slots@[q[i] as int].next == slot_at(q, i + 1) by {
                let j = if i < p { i } else { i + 1 };
                assert(q[i] == o[j]);
                if i > 0 {
                    assert(q[i - 1] == o[if i - 1 < p { i - 1 } else { i }]);
                }
                if i + 1 < n - 1 {
                    assert(q[i + 1] == o[if i + 1 < p { i + 1 } else { i + 2 }]);
                }
            }
            assert forall|i: int| 0 <= i < n - 1 implies #[trigger] q[i] < n by {
                assert(q[i] == o[if i < p { i } else { i + 1 }]);
            }
        }
        node
    }

    /// Moves the node in the last slot into slot `s`, which no chain link
    /// and no index entry uses, and drops the last slot.
    fn compact(&mut self, s: usize, c: Ghost<Seq<usize>>, it: Ghost<int>)
        requires
            s < old(self).slots@.len(),
            c@.len() == old(self).slots@.len() - 1,
            linked(old(self).slots@, old(self).first, old(self).last, c@),
            forall|i: int| 0 <= i < c@.len() ==> #[trigger] c@[i] != s,
            forall|i: int, j: int|
                0 <= i < c@.len() && 0 <= j < c@.len() && i != j ==> #[trigger] c@[i] != #[trigger] c@[j],
            s != old(self).slots@.len() - 1 ==> 0 <= it@ < c@.len() && c@[it@] == old(self).slots@.len() - 1,
            obeys_key_model::<K>(),
            forall|x: int|
                0 <= x < old(self).slots@.len() && x != s ==> old(self).index@.contains_key(
                    #[trigger] old(self).slots@[x].key,
                ) && old(self).index@[old(self).slots@[x].key] == x,
            forall|k: K|
                #[trigger] old(self).index@.contains_key(k) ==> old(self).index@[k] < old(self).slots@.len()
                    && old(self).index@[k] != s && old(self).slots@[old(self).index@[k] as int].key == k,
        ensures
            ({
                let t = (old(self).slots@.len() - 1) as usize;
                &&& final(self).slots@.len() == t
                &&& linked(
                    final(self).slots@,
                    final(self).first,
                    final(self).last,
                    c@.map_values(|x: usize| rename(x, t, s)),
                )
                &&& forall|x: usize|
                    x < old(self).slots@.len() && x != s ==> (#[trigger] final(self).slots@[rename(x, t, s) as int]).key
                        == old(self).slots@[x as int].key && final(self).slots@[rename(x, t, s) as int].value
                        == old(self).slots@[x as int].value
                &&& forall|x: int|
                    0 <= x < t ==> final(self).index@.contains_key(#[trigger] final(self).slots@[x].key)
                        && final(self).index@[final(self).slots@[x].key] == x
                &&& forall|k: K|
                    #[trigger] final(self).index@.contains_key(k) ==> final(self).index@[k] < t
                        && final(self).slots@[final(self).index@[k] as int].key == k
                &&& final(self).index@.dom() == old(self).index@.dom()
            }),
    {
        let t = self.slots.len() - 1;
        let ghost c = c@;
        let ghost it = it@;
        let ghost r = c.map_values(|x: usize| rename(x, t, s));
        if s != t {
            let moved = self.slots[t];
            match moved.prev {
                Some(a) => {
                    self.slots[a].next = Some(s);
                },
                None => {
                    self.first = Some(s);
                },
            }
            match moved.next {
                Some(b) => {
                    self.slots[b].prev = Some(s);
                },
                None => {
                    self.last = Some(s);
                },
            }
            self.index.insert(moved.key, s);
            proof {
                assert forall|i: int| 0 <= i < c.len() implies (#[trigger] self.slots@[c[i] as int]).prev
                    == slot_at(r, i - 1) && self.slots@[c[i] as int].next == slot_at(r, i + 1)
                    && self.slots@[c[i] as int].key == old(self).slots@[c[i] as int].key
                    && self.slots@[c[i] as int].value == old(self).slots@[c[i] as int].value by {
                    if c[i] == t {
                        assert(i == it);
                    }
                    if i > 0 && c[i - 1] == t {
                        assert(i - 1 == it);
                    }
                    if i + 1 < c.len() && c[i + 1] == t {
                        assert(i + 1 == it);
                    }
                }
            }
        } else {
            proof {
                assert(r =~= c);
            }
        }
        let ghost slots2 = self.slots@;
        self.slots.swap_remove(s);
        proof {
            assert forall|i: int| 0 <= i < c.len() implies #[trigger] self.slots@[r[i] as int] == slots2[c[i] as int] by {}
            assert(linked(self.slots@, self.first, self.last, r));
        }
    }

    /// Removes the entry of `key` and returns its value. The other entries
    /// keep their order. An absent key leaves the map as it was.
    #[verifier::spinoff_prover]
    #[verifier::rlimit(50)]
    pub fn remove(&mut self, key: &K) -> (r: Option<V>)
        requires
            old(self).wf(),
        ensures
            final(self).wf(),
            r == lookup(old(self)@, *key),
            final(self)@ == removed(old(self)@, *key),
            r is None ==> *final(self) == *old(self),
    {
        proof {
            self.lemma_view_unique();
            lemma_find(self@, *key);
        }
        let s = match self.index.get(key) {
            None => {
                return None;
            },
            Some(s) => *s,
        };
        let ghost o = self.order@;
        let ghost n = o.len() as int;
        let ghost p = self.pos@[s as int];
        let ghost q = o.remove(p);
        proof {
            assert(self@[p].0 == *key);
            lemma_find_at(self@, p);
        }
        let node = self.unlink(s);
        self.index.remove(key);
        let ghost slots1 = self.slots@;
        // Keep the arena dense: the node in the last slot moves into slot `s`.
        let t = self.slots.len() - 1;
        let ghost it = {
            let k = old(self).pos@[t as int];
            if k < p { k } else { k - 1 }
        };
        proof {
            assert forall|i: int| 0 <= i < n - 1 implies #[trigger] q[i] < n && q[i] != s by {
                assert(q[i] == o[if i < p { i } else { i + 1 }]);
            }
            assert forall|i: int, j: int| 0 <= i < n - 1 && 0 <= j < n - 1 && i != j implies #[trigger] q[i] != #[trigger] q[j] by {
                assert(q[i] == o[if i < p { i } else { i + 1 }]);
                assert(q[j] == o[if j < p { j } else { j + 1 }]);
            }
            if s != t {
                assert(q[it] == o[old(self).pos@[t as int]]);
            }
            assert(linked(self.slots@, self.first, self.last, q));
        }
        self.compact(s, Ghost(q), Ghost(it));
        proof {
            let r = q.map_values(|x: usize| rename(x, t, s));
            self.order@ = r;
            self.pos@ = Seq::new(
                (n - 1) as nat,
                |x: int|
                    {
                        let y = if x == s { t as int } else { x };
                        let k = old(self).pos@[y];
                        if k > p {
                            k - 1
                        } else {
                            k
                        }
                    },
            );
            assert forall|i: int| 0 <= i < n - 1 implies #[trigger] r[i] < n - 1 && self.pos@[r[i] as int] == i by {
                let j = if i < p { i } else { i + 1 };
                assert(q[i] == o[j]);
            }
            assert forall|x: int| 0 <= x < n - 1 implies 0 <= #[trigger] self.pos@[x] < n - 1 && r[self.pos@[x]] == x by {
                let y = if x == s { t as int } else { x };
                let k = old(self).pos@[y];
                assert(o[k] == y);
                let i = if k > p { k - 1 } else { k };
                assert(q[i] == o[k]);
            }
            assert(self.wf_order());
            assert(self.wf_links());
            assert(self.wf_index());
            assert forall|i: int| 0 <= i < n - 1 implies #[trigger] self@[i] == old(self)@.remove(p)[i] by {
                let j = if i < p { i } else { i + 1 };
                assert(q[i] == o[j]);
                assert(slots1[q[i] as int].key == old(self).slots@[q[i] as int].key);
                assert(r[i] == rename(q[i], t, s));
                assert(self.slots@[rename(q[i], t, s) as int].key == slots1[q[i] as int].key);
                assert(self.slots@[rename(q[i], t, s) as int].value == slots1[q[i] as int].value);
                assert(old(self)@.remove(p)[i] == old(self)@[j]);
            }
            assert(self@ =~= old(self)@.remove(p));
        }
        Some(node.value)
    }

    /// A copy of the entries, in chain order, read by walking the chain from
    /// its first node.
    pub fn entries(&self) -> (r: Vec<(K, V)>)
        requires
            self.wf(),
        ensures
            r@ == self@,
    {
        let mut out: Vec<(K, V)> = Vec::new();
        let mut cur = self.first;
        let ghost mut i: int = 0;
        while cur.is_some()
            invariant
                self.wf(),
                0 <= i <= self@.len(),
                cur == slot_at(self.order@, i),
                out@ == self@.take(i),
            decreases self@.len() - i,
        {
            let s = cur.unwrap();
            let node = self.slots[s];
            out.push((node.key, node.value));
            cur = node.next;
            proof {
                assert(out@ =~= self@.take(i + 1));
                i = i + 1;
            }
        }
        assert(out@ =~= self@);
        out
    }

    /// A cursor that yields the current entries in chain order.
    pub fn iter(&self) -> (r: Iter<K, V>)
        requires
            self.wf(),
        ensures
            r.wf(),
            r@ == self@,
    {
        Iter::from_entries(self.entries())
    }
}

} // verus!
