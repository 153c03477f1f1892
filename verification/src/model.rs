//! The cache as a mathematical object: the keys and values in ring order,
//! together with the tuning of the ring controller. The operations of the
//! cache are stated here as functions from state to state.

use vstd::prelude::*;
use crate::ring::{lemma_walked_commutes, lemma_walked_rearranges, walked};
use crate::tuning::{lemma_tuning_steps, Tuning, PROMOTION_STEPS};

verus! {

/// State of a cache.
pub struct CacheState<K, V> {
    /// The cached keys with their values, by ring position.
    pub ring: Seq<(K, V)>,
    /// Pointers and tuning parameters of the ring controller.
    pub tuning: Tuning,
}

impl<K, V> CacheState<K, V> {
    /// The empty cache of the given capacity.
    pub open spec fn empty(capacity: nat) -> Self {
        CacheState { ring: Seq::empty(), tuning: Tuning::fresh(capacity) }
    }

    /// The cached keys, by ring position.
    pub open spec fn keys(self) -> Seq<K> {
        self.ring.map_values(|entry: (K, V)| entry.0)
    }

    /// Number of cached keys.
    pub open spec fn len(self) -> nat {
        self.ring.len()
    }

    pub open spec fn capacity(self) -> nat {
        self.tuning.capacity()
    }

    /// Every ring position is occupied, so that an insertion evicts.
    pub open spec fn is_full(self) -> bool {
        self.ring.len() >= self.tuning.capacity()
    }

    pub open spec fn contains(self, key: K) -> bool {
        self.keys().contains(key)
    }

    /// Ring position of a cached key.
    pub open spec fn position(self, key: K) -> int {
        self.keys().index_of(key)
    }

    /// The value cached under a key, if any.
    pub open spec fn lookup(self, key: K) -> Option<V> {
        if self.contains(key) {
            Some(self.ring[self.position(key)].1)
        } else {
            None
        }
    }

    /// What holds of every cache at rest: the tuning is well formed, the ring
    /// never outgrows the capacity, the top pointer follows the ring while it
    /// fills, and no key is cached twice.
    pub open spec fn inv(self) -> bool {
        &&& self.tuning.wf()
        &&& self.ring.len() <= self.tuning.capacity()
        &&& (self.ring.len() < self.tuning.capacity() ==> self.tuning.top == self.ring.len())
        &&& self.keys().no_duplicates()
    }

    /// The cache after `put(key, value)`.
    ///
    /// A cached key is left alone, with its old value. A new key goes to the
    /// end of the ring while the ring fills, and afterwards replaces the entry
    /// at the top pointer; either way the top pointer moves on.
    pub open spec fn put(self, key: K, value: V) -> Self {
        if self.contains(key) {
            self
        } else if !self.is_full() {
            CacheState { ring: self.ring.push((key, value)), tuning: self.tuning.advanced() }
        } else {
            CacheState {
                ring: self.ring.update(self.tuning.top as int, (key, value)),
                tuning: self.tuning.decayed().advanced(),
            }
        }
    }

    /// A read of `key` moves its entry: the key is cached, farther from the
    /// top pointer than the distance threshold.
    pub open spec fn promotes(self, key: K) -> bool {
        &&& self.contains(key)
        &&& self.tuning.distance(self.position(key) as nat) > self.tuning.min_update_distance
    }

    /// The cache after the entry at ring position `index` has been promoted
    /// with a budget of `count` hops.
    pub open spec fn promoted(self, index: nat, count: nat) -> Self {
        let distance = self.tuning.distance(index);
        CacheState {
            ring: walked(
                self.ring,
                index,
                self.tuning.move_distance(distance),
                self.tuning.step_size(distance, count),
                self.tuning.max_pointer,
            ),
            tuning: self.tuning.adapted(distance),
        }
    }

    /// The cache after a read of `key` with a budget of `count` hops.
    pub open spec fn touch_with(self, key: K, count: nat) -> Self {
        if self.promotes(key) {
            self.promoted(self.position(key) as nat, count)
        } else {
            self
        }
    }

    /// The cache after `get(key)`.
    pub open spec fn touch(self, key: K) -> Self {
        self.touch_with(key, PROMOTION_STEPS as nat)
    }

    /// The cache after the items have been put one after the other, first to
    /// last.
    pub open spec fn put_all(self, items: Seq<(K, V)>) -> Self
        decreases items.len(),
    {
        if items.len() == 0 {
            self
        } else {
            self.put_all(items.drop_last()).put(items.last().0, items.last().1)
        }
    }

    /// The empty cache is at rest and holds no key.
    pub proof fn lemma_empty(capacity: nat)
        requires
            capacity >= 1,
        ensures
            Self::empty(capacity).inv(),
            Self::empty(capacity).capacity() == capacity,
            forall|key: K| !Self::empty(capacity).contains(key),
    {
        crate::tuning::lemma_limit_bounds((capacity - 1) as nat, 50, 50);
        crate::tuning::lemma_percent_bounded(capacity, 50);
    }

    /// The key at a ring position is cached, at that position and no other,
    /// with the value that stands beside it.
    pub proof fn lemma_entry_found(self, index: int)
        requires
            self.keys().no_duplicates(),
            0 <= index < self.ring.len(),
        ensures
            self.contains(self.ring[index].0),
            self.position(self.ring[index].0) == index,
            self.lookup(self.ring[index].0) == Some(self.ring[index].1),
    {
        assert(self.keys()[index] == self.ring[index].0);
    }

    /// A cached key stands at its position.
    pub proof fn lemma_position(self, key: K)
        requires
            self.contains(key),
        ensures
            0 <= self.position(key) < self.ring.len(),
            self.ring[self.position(key)].0 == key,
    {
        assert(self.keys()[self.position(key)] == key);
    }

    /// The keys of a promoted cache are the promoted keys.
    pub proof fn lemma_promoted_keys(self, index: nat, count: nat)
        requires
            index < self.ring.len(),
        ensures
            self.promoted(index, count).keys() == walked(
                self.keys(),
                index,
                self.tuning.move_distance(self.tuning.distance(index)),
                self.tuning.step_size(self.tuning.distance(index), count),
                self.tuning.max_pointer,
            ),
    {
        let distance = self.tuning.distance(index);
        let travel = self.tuning.move_distance(distance);
        let step = self.tuning.step_size(distance, count);
        let part = |entry: (K, V)| entry.0;
        lemma_walked_commutes(self.ring, part, index, travel, step, self.tuning.max_pointer);
        assert(self.ring.map_values(part) =~= self.keys());
        assert(self.promoted(index, count).keys() =~= self.promoted(index, count).ring.map_values(
            part,
        ));
    }

    /// `put` keeps a cache at rest.
    pub proof fn lemma_put_inv(self, key: K, value: V)
        requires
            self.inv(),
        ensures
            self.put(key, value).inv(),
    {
        let after = self.put(key, value);
        lemma_tuning_steps(self.tuning, 0);
        lemma_tuning_steps(self.tuning.decayed(), 0);
        if !self.contains(key) {
            if !self.is_full() {
                assert(after.keys() =~= self.keys().push(key));
            } else {
                assert(after.keys() =~= self.keys().update(self.tuning.top as int, key));
            }
            assert forall|i: int, j: int|
                0 <= i < after.keys().len() && 0 <= j < after.keys().len() && i != j implies after.keys()[i]
                != after.keys()[j] by {
                if i < self.keys().len() && after.keys()[i] != key {
                    assert(after.keys()[i] == self.keys()[i]);
                }
                if j < self.keys().len() && after.keys()[j] != key {
                    assert(after.keys()[j] == self.keys()[j]);
                }
            }
        }
    }

    /// A read keeps a cache at rest.
    pub proof fn lemma_touch_inv(self, key: K, count: nat)
        requires
            self.inv(),
        ensures
            self.touch_with(key, count).inv(),
    {
        if self.promotes(key) {
            self.lemma_position(key);
            let index = self.position(key) as nat;
            let distance = self.tuning.distance(index);
            lemma_tuning_steps(self.tuning, distance);
            self.lemma_promoted_keys(index, count);
            lemma_walked_rearranges(
                self.keys(),
                index,
                self.tuning.move_distance(distance),
                self.tuning.step_size(distance, count),
                self.tuning.max_pointer,
            );
            lemma_walked_rearranges(
                self.ring,
                index,
                self.tuning.move_distance(distance),
                self.tuning.step_size(distance, count),
                self.tuning.max_pointer,
            );
        }
    }

    /// A read changes what no key holds: every lookup answers after it as it
    /// did before.
    pub proof fn lemma_touch_keeps_lookup(self, key: K, count: nat, other: K)
        requires
            self.inv(),
        ensures
            self.touch_with(key, count).lookup(other) == self.lookup(other),
    {
        if self.promotes(key) {
            let after = self.touch_with(key, count);
            self.lemma_touch_inv(key, count);
            self.lemma_position(key);
            let index = self.position(key) as nat;
            let distance = self.tuning.distance(index);
            let travel = self.tuning.move_distance(distance);
            let step = self.tuning.step_size(distance, count);
            self.lemma_promoted_keys(index, count);
            lemma_walked_rearranges(self.keys(), index, travel, step, self.tuning.max_pointer);
            lemma_walked_rearranges(self.ring, index, travel, step, self.tuning.max_pointer);
            if self.contains(other) {
                self.lemma_position(other);
                let entry = self.ring[self.position(other)];
                assert(self.ring.contains(entry));
                assert(after.ring.contains(entry));
                let landed = choose|j: int| 0 <= j < after.ring.len() && after.ring[j] == entry;
                after.lemma_entry_found(landed);
            }
        }
    }
}

} // verus!
