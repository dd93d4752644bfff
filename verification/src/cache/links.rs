//! The list of a cache's keys in the order of their use, threaded through a
//! hash map: every entry names the key before it and the key after it.

use std::collections::HashMap;
use vstd::prelude::*;

verus! {

broadcast use vstd::std_specs::hash::group_hash_axioms;

/// An entry of the list.
pub struct Node<V> {
    pub value: V,
    pub prev: Option<u64>,
    pub next: Option<u64>,
}

/// The key at position `i`, if there is one.
pub open spec fn key_at(order: Seq<u64>, i: int) -> Option<u64> {
    if 0 <= i < order.len() {
        Some(order[i])
    } else {
        None
    }
}

/// The map holds the keys of `order` and no others, and each entry names
/// its two neighbours in `order`.
pub open spec fn threaded<V>(
    map: Map<u64, Node<V>>,
    head: Option<u64>,
    tail: Option<u64>,
    order: Seq<u64>,
) -> bool {
    &&& order.no_duplicates()
    &&& forall|k: u64| map.contains_key(k) <==> order.contains(k)
    &&& head == key_at(order, 0)
    &&& tail == key_at(order, order.len() - 1)
    &&& forall|i: int|
        0 <= i < order.len() ==> (#[trigger] map[order[i]]).prev == key_at(order, i - 1)
            && map[order[i]].next == key_at(order, i + 1)
}

/// The entries in the order of the keys.
pub open spec fn entries_of<V>(map: Map<u64, Node<V>>, order: Seq<u64>) -> Seq<(u64, V)> {
    Seq::new(order.len(), |i: int| (order[i], map[order[i]].value))
}

/// The keys of a cache, most recently used first, with their values.
pub struct Links<V> {
    pub map: HashMap<u64, Node<V>>,
    pub head: Option<u64>,
    pub tail: Option<u64>,
    pub count: usize,
    pub order: Ghost<Seq<u64>>,
}

impl<V> Links<V> {
    /// The list is threaded and counted rightly.
    pub open spec fn wf(&self) -> bool {
        &&& threaded(self.map@, self.head, self.tail, self.order@)
        &&& self.count == self.order@.len()
    }

    /// The entries, most recently used first.
    pub open spec fn view(&self) -> Seq<(u64, V)> {
        entries_of(self.map@, self.order@)
    }

    /// An empty list.
    pub fn new() -> (l: Self)
        ensures
            l.wf(),
            l@ == Seq::<(u64, V)>::empty(),
            l.count == 0,
            l.order@ == Seq::<u64>::empty(),
    {
        let l = Links {
            map: HashMap::new(),
            head: None,
            tail: None,
            count: 0,
            order: Ghost(Seq::empty()),
        };
        proof {
            assert(l@ =~= Seq::<(u64, V)>::empty());
        }
        l
    }

    /// Takes the entry of `key` out of the list and gives its value.
    pub fn unlink(&mut self, key: u64, Ghost(i): Ghost<int>) -> (value: V)
        requires
            old(self).wf(),
            0 <= i < old(self).order@.len(),
            old(self).order@[i] == key,
        ensures
            final(self).wf(),
            final(self).order@ == old(self).order@.remove(i),
            final(self)@ == old(self)@.remove(i),
            final(self).count == old(self).count - 1,
            value == old(self)@[i].1,
    {
        let ghost order = self.order@;
        let ghost m0 = self.map@;
        let ghost n = order.len() as int;
        proof {
            assert(order.contains(key));
        }
        let node = match self.map.remove(&key) {
            Some(node) => node,
            None => {
                proof {
                    assert(false);
                }
                vstd::pervasive::unreached()
            },
        };
        let ghost m1 = self.map@;
        proof {
            assert(node == m0[order[i]]);
        }
        match node.prev {
            Some(p) => {
                proof {
                    assert(i > 0 && p == order[i - 1]);
                    assert(order.contains(p));
                    assert(p != key);
                }
                match self.map.remove(&p) {
                    Some(before) => {
                        proof {
                            assert(before == m0[order[i - 1]]);
                        }
                        self.map.insert(
                            p,
                            Node { value: before.value, prev: before.prev, next: node.next },
                        );
                    },
                    None => {
                        proof {
                            assert(false);
                        }
                    },
                }
            },
            None => {
                self.head = node.next;
            },
        }
        let ghost m2 = self.map@;
        match node.next {
            Some(x) => {
                proof {
                    assert(i + 1 < n && x == order[i + 1]);
                    assert(order.contains(x));
                    assert(x != key);
                    if i > 0 {
                        assert(order[i - 1] != order[i + 1]);
                    }
                }
                match self.map.remove(&x) {
                    Some(after) => {
                        proof {
                            assert(after == m0[order[i + 1]]);
                        }
                        self.map.insert(
                            x,
                            Node { value: after.value, prev: node.prev, next: after.next },
                        );
                    },
                    None => {
                        proof {
                            assert(false);
                        }
                    },
                }
            },
            None => {
                self.tail = node.prev;
            },
        }
        self.count = self.count - 1;
        self.order = Ghost(order.remove(i));
        proof {
            let m3 = self.map@;
            let o = order.remove(i);
            assert forall|a: int, b: int| 0 <= a < o.len() && 0 <= b < o.len() && a != b implies o[a]
                != o[b] by {
                let a0 = if a < i { a } else { a + 1 };
                let b0 = if b < i { b } else { b + 1 };
                assert(o[a] == order[a0] && o[b] == order[b0]);
            }
            assert forall|k: u64| m3.contains_key(k) <==> o.contains(k) by {
                if o.contains(k) {
                    let a = choose|a: int| 0 <= a < o.len() && o[a] == k;
                    let a0 = if a < i { a } else { a + 1 };
                    assert(order[a0] == k);
                    assert(order.contains(k));
                }
                if m3.contains_key(k) {
                    assert(k != key);
                    assert(m0.contains_key(k));
                    assert(order.contains(k));
                    let a0 = choose|a: int| 0 <= a < order.len() && order[a] == k;
                    let a = if a0 < i { a0 } else { a0 - 1 };
                    assert(o[a] == k);
                }
            }
            assert forall|a: int| 0 <= a < o.len() implies (#[trigger] m3[o[a]]).prev == key_at(
                o,
                a - 1,
            ) && m3[o[a]].next == key_at(o, a + 1) && m3[o[a]].value == m0[o[a]].value by {
                let a0 = if a < i { a } else { a + 1 };
                assert(o[a] == order[a0]);
                assert(m0[order[a0]].prev == key_at(order, a0 - 1));
                if a0 - 1 >= 0 {
                    assert(order[a0 - 1] != order[a0]);
                }
                if a0 + 1 < n {
                    assert(order[a0 + 1] != order[a0]);
                }
                if a > 0 {
                    let b0 = if a - 1 < i { a - 1 } else { a };
                    assert(o[a - 1] == order[b0]);
                }
                if a + 1 < o.len() {
                    let c0 = if a + 1 < i { a + 1 } else { a + 2 };
                    assert(o[a + 1] == order[c0]);
                }
                if i > 0 && i + 1 < n {
                    assert(order[i - 1] != order[i + 1]);
                }
                if 0 <= a0 < n && i > 0 && a0 != i - 1 {
                    assert(order[a0] != order[i - 1]);
                }
                if 0 <= a0 < n && i + 1 < n && a0 != i + 1 {
                    assert(order[a0] != order[i + 1]);
                }
            }
            assert(self@ =~= old(self)@.remove(i));
        }
        node.value
    }

    /// Puts an entry at the front of the list.
    pub fn push_front(&mut self, key: u64, value: V)
        requires
            old(self).wf(),
            !old(self).order@.contains(key),
            old(self).count < usize::MAX,
        ensures
            final(self).wf(),
            final(self).order@ == seq![key] + old(self).order@,
            final(self)@ == seq![(key, value)] + old(self)@,
            final(self).count == old(self).count + 1,
    {
        let ghost order = self.order@;
        let ghost m0 = self.map@;
        let ghost n = order.len() as int;
        let node = Node { value, prev: None, next: self.head };
        match self.head {
            Some(h) => {
                proof {
                    assert(n > 0 && h == order[0]);
                    assert(order.contains(h));
                }
                match self.map.remove(&h) {
                    Some(first) => {
                        proof {
                            assert(first == m0[order[0]]);
                        }
                        self.map.insert(
                            h,
                            Node { value: first.value, prev: Some(key), next: first.next },
                        );
                    },
                    None => {
                        proof {
                            assert(false);
                        }
                    },
                }
            },
            None => {
                self.tail = Some(key);
            },
        }
        self.head = Some(key);
        self.map.insert(key, node);
        self.count = self.count + 1;
        self.order = Ghost(seq![key] + order);
        proof {
            let m3 = self.map@;
            let o = seq![key] + order;
            assert forall|a: int, b: int| 0 <= a < o.len() && 0 <= b < o.len() && a != b implies o[a]
                != o[b] by {
                if a > 0 {
                    assert(o[a] == order[a - 1]);
                    assert(order.contains(o[a]));
                }
                if b > 0 {
                    assert(o[b] == order[b - 1]);
                    assert(order.contains(o[b]));
                }
            }
            assert forall|k: u64| m3.contains_key(k) <==> o.contains(k) by {
                if o.contains(k) {
                    let a = choose|a: int| 0 <= a < o.len() && o[a] == k;
                    if a > 0 {
                        assert(order[a - 1] == k);
                        assert(order.contains(k));
                    }
                }
                if m3.contains_key(k) {
                    if k == key {
                        assert(o[0] == k);
                    } else {
                        assert(m0.contains_key(k));
                        assert(order.contains(k));
                        let a0 = choose|a: int| 0 <= a < order.len() && order[a] == k;
                        assert(o[a0 + 1] == k);
                    }
                }
            }
            assert forall|a: int| 0 <= a < o.len() implies (#[trigger] m3[o[a]]).prev == key_at(
                o,
                a - 1,
            ) && m3[o[a]].next == key_at(o, a + 1) by {
                if a > 0 {
                    assert(o[a] == order[a - 1]);
                    assert(order.contains(o[a]));
                    assert(m0[order[a - 1]].prev == key_at(order, a - 2));
                    if a > 1 {
                        assert(o[a - 1] == order[a - 2]);
                        assert(order[a - 1] != order[0]);
                    }
                    if a + 1 < o.len() {
                        assert(o[a + 1] == order[a]);
                    }
                } else {
                    if n > 0 {
                        assert(o[1] == order[0]);
                    }
                }
            }
            assert(self@ =~= seq![(key, value)] + old(self)@);
        }
    }
}

} // verus!
