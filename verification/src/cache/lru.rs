//! A bounded least-recently-used cache keyed by page id.
//!
//! The cache is modelled as the sequence of its entries from the most
//! recently used to the least recently used. No key occurs twice, and the
//! sequence is never longer than the capacity. The entries are kept in a
//! hash map and threaded into a list, so that a lookup, a refresh and an
//! eviction each touch a few entries only.

use vstd::prelude::*;
use crate::cache::links::{entries_of, Links, Node};
use crate::engine::metrics::{bump, bumped, EngineMetrics};

verus! {

/// The position of `key` among `entries`, or `-1` where it is absent.
pub open spec fn position_of<V>(entries: Seq<(u64, V)>, key: u64) -> int
    decreases entries.len(),
{
    if entries.len() == 0 {
        -1
    } else if entries[0].0 == key {
        0
    } else {
        let rest = position_of(entries.drop_first(), key);
        if rest < 0 {
            -1
        } else {
            rest + 1
        }
    }
}

/// No key occurs at two positions.
pub open spec fn distinct_keys<V>(entries: Seq<(u64, V)>) -> bool {
    forall|i: int, j: int|
        0 <= i < j < entries.len() ==> (#[trigger] entries[i]).0 != (#[trigger] entries[j]).0
}

/// `entries` with the entry at `i` moved to the front.
pub open spec fn promoted<V>(entries: Seq<(u64, V)>, i: int) -> Seq<(u64, V)> {
    seq![entries[i]] + entries.remove(i)
}

/// What `position_of` finds: the first position that holds the key.
pub proof fn lemma_position_of<V>(entries: Seq<(u64, V)>, key: u64)
    ensures
        -1 <= position_of(entries, key) < entries.len(),
        position_of(entries, key) >= 0 ==> entries[position_of(entries, key)].0 == key,
        forall|j: int|
            0 <= j < entries.len() && (position_of(entries, key) < 0 || j < position_of(
                entries,
                key,
            )) ==> (#[trigger] entries[j]).0 != key,
    decreases entries.len(),
{
    if entries.len() > 0 && entries[0].0 != key {
        let rest = entries.drop_first();
        lemma_position_of(rest, key);
        assert forall|j: int|
            0 <= j < entries.len() && (position_of(entries, key) < 0 || j < position_of(
                entries,
                key,
            )) implies (#[trigger] entries[j]).0 != key by {
            if j > 0 {
                assert(entries[j] == rest[j - 1]);
            }
        }
    }
}

/// Where a key stands among the entries of a list without duplicates.
proof fn lemma_position_in_entries<V>(map: Map<u64, Node<V>>, order: Seq<u64>, key: u64)
    requires
        order.no_duplicates(),
    ensures
        distinct_keys(entries_of(map, order)),
        forall|i: int|
            0 <= i < order.len() && #[trigger] order[i] == key ==> position_of(
                entries_of(map, order),
                key,
            ) == i,
        !order.contains(key) ==> position_of(entries_of(map, order), key) < 0,
{
    let entries = entries_of(map, order);
    lemma_position_of(entries, key);
    let p = position_of(entries, key);
    assert forall|i: int| 0 <= i < order.len() && #[trigger] order[i] == key implies p == i by {
        assert(entries[i].0 == key);
        if p >= 0 {
            assert(entries[p].0 == order[p]);
        }
    }
    if p >= 0 {
        assert(entries[p].0 == order[p]);
        assert(order.contains(key));
    }
    assert forall|i: int, j: int| 0 <= i < j < entries.len() implies (#[trigger] entries[i]).0 != (
    #[trigger] entries[j]).0 by {
        assert(entries[i].0 == order[i] && entries[j].0 == order[j]);
    }
}

/// A bounded cache that evicts the entry that was used least recently.
pub struct LruCache<V> {
    capacity: usize,
    links: Links<V>,
}

impl<V> LruCache<V> {
    #[verifier::type_invariant]
    spec fn well_formed(self) -> bool {
        &&& self.capacity > 0
        &&& self.links.wf()
        &&& self.links.count <= self.capacity
    }

    /// The entries, most recently used first.
    pub closed spec fn view(&self) -> Seq<(u64, V)> {
        self.links@
    }

    /// The largest number of entries the cache holds.
    pub closed spec fn capacity(&self) -> nat {
        self.capacity as nat
    }

    /// An empty cache that holds up to `capacity` entries.
    pub fn new(capacity: usize) -> (cache: Self)
        requires
            capacity > 0,
        ensures
            cache@ == Seq::<(u64, V)>::empty(),
            cache.capacity() == capacity,
    {
        LruCache { capacity, links: Links::new() }
    }

    /// The number of entries held.
    pub fn len(&self) -> (n: usize)
        ensures
            n == self@.len(),
            n <= self.capacity(),
            self.capacity() > 0,
            distinct_keys(self@),
    {
        proof {
            use_type_invariant(self);
            lemma_position_in_entries(self.links.map@, self.links.order@, 0);
            assert(entries_of(self.links.map@, self.links.order@).len()
                == self.links.order@.len());
        }
        self.links.count
    }

    /// Makes the entry of `key` the most recently used.
    fn move_to_head(&mut self, key: u64)
        requires
            position_of(old(self)@, key) >= 0,
        ensures
            final(self)@ == promoted(old(self)@, position_of(old(self)@, key)),
            final(self).capacity() == old(self).capacity(),
    {
        proof {
            use_type_invariant(&*self);
            lemma_position_of(self@, key);
            lemma_position_in_entries(self.links.map@, self.links.order@, key);
        }
        let ghost i = position_of(self@, key);
        let mut links = Links::new();
        std::mem::swap(&mut links, &mut self.links);
        let ghost before = links@;
        proof {
            assert(links.order@[i] == before[i].0);
        }
        let value = links.unlink(key, Ghost(i));
        proof {
            let o = links.order@;
            assert forall|a: int| 0 <= a < o.len() implies o[a] != key by {
                let a0 = if a < i { a } else { a + 1 };
                assert(o[a] == old(self).links.order@[a0]);
            }
        }
        links.push_front(key, value);
        self.links = links;
    }

    /// Drops the least recently used entry.
    fn evict_lru(&mut self)
        ensures
            old(self)@.len() > 0 ==> final(self)@ == old(self)@.drop_last(),
            old(self)@.len() == 0 ==> final(self)@ == old(self)@,
            final(self).capacity() == old(self).capacity(),
    {
        proof {
            use_type_invariant(&*self);
        }
        match self.links.tail {
            Some(last) => {
                let ghost n = self.links.order@.len() as int;
                let mut links = Links::new();
                std::mem::swap(&mut links, &mut self.links);
                let _ = links.unlink(last, Ghost(n - 1));
                proof {
                    assert(old(self)@.remove(n - 1) =~= old(self)@.drop_last());
                }
                self.links = links;
            },
            None => {},
        }
    }

    /// Looks `key` up. A hit makes the entry the most recently used and
    /// returns its value; a miss changes nothing.
    pub fn get(&mut self, key: &u64) -> (r: Option<&V>)
        ensures
            final(self).capacity() == old(self).capacity(),
            position_of(old(self)@, *key) < 0 ==> r is None && final(self)@ == old(self)@,
            position_of(old(self)@, *key) >= 0 ==> r == Some(
                &old(self)@[position_of(old(self)@, *key)].1,
            ) && final(self)@ == promoted(old(self)@, position_of(old(self)@, *key)),
    {
        proof {
            use_type_invariant(&*self);
            lemma_position_of(self@, *key);
            lemma_position_in_entries(self.links.map@, self.links.order@, *key);
        }
        if !self.links.map.contains_key(key) {
            return None;
        }
        proof {
            assert(self.links.order@.contains(*key));
        }
        self.move_to_head(*key);
        proof {
            use_type_invariant(&*self);
            let entries = entries_of(self.links.map@, self.links.order@);
            assert(self@ == entries);
            assert(entries.len() > 0);
            assert(entries[0] == (self.links.order@[0], self.links.map@[self.links.order@[0]].value));
            assert(self.links.order@[0] == *key);
            assert(self.links.order@.contains(*key));
        }
        match self.links.map.get(key) {
            Some(node) => Some(&node.value),
            None => None,
        }
    }

    /// Stores `value` under `key` as the most recently used entry. An entry
    /// already held under `key` is replaced. Where `key` is new and the cache
    /// is full, the least recently used entry leaves and the eviction counter
    /// goes up by one.
    pub fn put(&mut self, key: u64, value: V, metrics: &mut EngineMetrics)
        ensures
            final(self).capacity() == old(self).capacity(),
            final(self)@ == put_model(old(self)@, old(self).capacity(), key, value),
            *final(metrics) == (EngineMetrics {
                page_cache_evictions: if position_of(old(self)@, key) < 0 && old(self)@.len()
                    == old(self).capacity() {
                    bumped(old(metrics).page_cache_evictions)
                } else {
                    old(metrics).page_cache_evictions
                },
                ..*old(metrics)
            }),
    {
        proof {
            use_type_invariant(&*self);
            lemma_position_of(self@, key);
            lemma_position_in_entries(self.links.map@, self.links.order@, key);
        }
        let ghost i = position_of(self@, key);
        if self.links.map.contains_key(&key) {
            proof {
                assert(self.links.order@.contains(key));
            }
            let mut links = Links::new();
            std::mem::swap(&mut links, &mut self.links);
            proof {
                assert(links.order@[i] == links@[i].0);
            }
            let _ = links.unlink(key, Ghost(i));
            proof {
                let o = links.order@;
                assert forall|a: int| 0 <= a < o.len() implies o[a] != key by {
                    let a0 = if a < i { a } else { a + 1 };
                    assert(o[a] == old(self).links.order@[a0]);
                }
            }
            links.push_front(key, value);
            self.links = links;
        } else {
            if self.links.count == self.capacity {
                self.evict_lru();
                metrics.page_cache_evictions = bump(metrics.page_cache_evictions);
            }
            proof {
                use_type_invariant(&*self);
                let o = self.links.order@;
                let entries = entries_of(self.links.map@, o);
                assert(self@ == entries);
                assert(entries.len() == o.len());
                assert forall|a: int| 0 <= a < o.len() implies o[a] != key by {
                    assert(entries[a].0 == o[a]);
                    assert(entries[a] == old(self)@[a]);
                }
                assert(old(self)@.len() == old(self).links.order@.len());
            }
            let mut links = Links::new();
            std::mem::swap(&mut links, &mut self.links);
            links.push_front(key, value);
            self.links = links;
        }
    }
}

/// The entries after `put(key, value)` on a cache of the given capacity.
pub open spec fn put_model<V>(entries: Seq<(u64, V)>, capacity: nat, key: u64, value: V) -> Seq<
    (u64, V),
> {
    let i = position_of(entries, key);
    if i >= 0 {
        seq![(key, value)] + entries.remove(i)
    } else if entries.len() == capacity && entries.len() > 0 {
        seq![(key, value)] + entries.drop_last()
    } else {
        seq![(key, value)] + entries
    }
}

} // verus!
