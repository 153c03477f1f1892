//! The cache itself: the key index, the dense entry store and the ring
//! controller, kept consistent with each other by every operation.

use vstd::prelude::*;
use crate::error::ConfigError;
use crate::index::{slot_index, SlotIndex};
use crate::key::CacheKey;
use crate::lru::Lru;
use crate::model::CacheState;
use crate::ring::{lemma_walked_commutes, swapped, walked};
use crate::tuning::{percent, PROMOTION_STEPS};

verus! {

/// A record of the entry store.
struct CacheEntry<K, V> {
    key: K,
    value: V,
    /// Ring position that names this record.
    index: usize,
}

/// A cache of at most a fixed number of entries. When full, an insertion
/// replaces the entry at the stale end of the ring; reads move the entries
/// they touch toward the fresh end.
pub struct SwapCache<K, V> {
    mapping: SlotIndex,
    lru: Lru,
    entries: Vec<CacheEntry<K, V>>,
}

/// The key and value that a slot of the entry store holds.
spec fn pair_of<K, V>(entries: Seq<CacheEntry<K, V>>, slot: usize) -> (K, V) {
    (entries[slot as int].key, entries[slot as int].value)
}

/// The keys and values in ring order.
spec fn ring_view<K, V>(ring: Seq<usize>, entries: Seq<CacheEntry<K, V>>) -> Seq<(K, V)> {
    Seq::new(ring.len(), |i: int| pair_of(entries, ring[i]))
}

/// Ring and entry store name each other: the record that a ring position
/// names records that position, and the position that a record records names
/// that record.
spec fn ring_agrees<K, V>(ring: Seq<usize>, entries: Seq<CacheEntry<K, V>>) -> bool {
    &&& forall|i: int|
        0 <= i < ring.len() ==> (#[trigger] ring[i]) < entries.len() && entries[ring[i] as int].index
            == i
    &&& forall|slot: int|
        0 <= slot < entries.len() ==> (#[trigger] entries[slot]).index < ring.len()
            && ring[entries[slot].index as int] == slot
}

/// Key index and entry store name each other: the record that the index gives
/// for a code holds a key with that code, and the key of every record is
/// indexed under its code, at that record.
spec fn index_agrees<K: CacheKey, V>(index: Map<u64, usize>, entries: Seq<CacheEntry<K, V>>) -> bool {
    &&& forall|code: u64| #[trigger]
        index.contains_key(code) ==> index[code] < entries.len()
            && entries[index[code] as int].key.spec_code() == code
    &&& forall|slot: int|
        0 <= slot < entries.len() ==> index.contains_key(
            (#[trigger] entries[slot]).key.spec_code(),
        ) && index[entries[slot].key.spec_code()] == slot
}

/// Reading keys and values off a promoted ring of slots gives the promoted
/// ring of keys and values.
proof fn lemma_promotion_view<K, V>(
    before_ring: Seq<usize>,
    before_entries: Seq<CacheEntry<K, V>>,
    after_ring: Seq<usize>,
    after_entries: Seq<CacheEntry<K, V>>,
    start: nat,
    travel: nat,
    step: nat,
    max_pointer: nat,
)
    requires
        start < before_ring.len(),
        after_ring == walked(before_ring, start, travel, step, max_pointer),
        after_entries.len() == before_entries.len(),
        forall|i: int| 0 <= i < after_ring.len() ==> (#[trigger] after_ring[i]) < after_entries.len(),
        forall|slot: int|
            0 <= slot < after_entries.len() ==> (#[trigger] after_entries[slot]).key
                == before_entries[slot].key && after_entries[slot].value == before_entries[slot].value,
    ensures
        ring_view(after_ring, after_entries) == walked(
            ring_view(before_ring, before_entries),
            start,
            travel,
            step,
            max_pointer,
        ),
{
    let part = |slot: usize| pair_of(before_entries, slot);
    lemma_walked_commutes(before_ring, part, start, travel, step, max_pointer);
    assert(before_ring.map_values(part) =~= ring_view(before_ring, before_entries));
    assert(after_ring.map_values(part) =~= ring_view(after_ring, after_entries)) by {
        assert forall|i: int| 0 <= i < after_ring.len() implies after_ring.map_values(part)[i]
            == ring_view(after_ring, after_entries)[i] by {
            let slot = after_ring[i] as int;
            assert(after_entries[slot].key == before_entries[slot].key);
        }
    }
}

impl<K: CacheKey, V> View for SwapCache<K, V> {
    type V = CacheState<K, V>;

    /// The cached keys and values in ring order, with the tuning of the ring
    /// controller.
    closed spec fn view(&self) -> CacheState<K, V> {
        CacheState { ring: ring_view(self.lru.ring@, self.entries@), tuning: self.lru.tuning() }
    }
}

impl<K: CacheKey, V> SwapCache<K, V> {
    /// The cache is consistent: its state is at rest, the ring and the key
    /// index agree with the entry store, and the index holds exactly one code
    /// for each record.
    pub closed spec fn wf(&self) -> bool {
        &&& self.lru.wf()
        &&& self.lru.ring@.len() <= self.lru.max_pointer + 1
        &&& (self.lru.ring@.len() <= self.lru.max_pointer ==> self.lru.top == self.lru.ring@.len())
        &&& self.entries@.len() == self.lru.ring@.len()
        &&& ring_agrees(self.lru.ring@, self.entries@)
        &&& index_agrees(slot_index(self.mapping), self.entries@)
        &&& slot_index(self.mapping).dom().finite()
        &&& slot_index(self.mapping).dom().len() == self.entries@.len()
    }

    /// The slot identifiers in ring order.
    pub closed spec fn ring_slots(&self) -> Seq<usize> {
        self.lru.ring@
    }

    /// The key that the record in a slot holds.
    pub closed spec fn key_at(&self, slot: int) -> K {
        self.entries@[slot].key
    }

    /// The value that the record in a slot holds.
    pub closed spec fn value_at(&self, slot: int) -> V {
        self.entries@[slot].value
    }

    /// The ring position that the record in a slot records.
    pub closed spec fn index_at(&self, slot: int) -> usize {
        self.entries@[slot].index
    }

    /// The key index: the slot under each code that it holds.
    pub closed spec fn key_index(&self) -> Map<u64, usize> {
        slot_index(self.mapping)
    }

    /// The slot that the key index gives for a key, if it holds the key.
    pub open spec fn slot_of(&self, key: K) -> Option<usize> {
        if self.key_index().contains_key(key.spec_code()) {
            Some(self.key_index()[key.spec_code()])
        } else {
            None
        }
    }

    /// The ring names the slots in their own order: position `i` names slot
    /// `i`. So it is as long as nothing has been promoted.
    pub open spec fn slots_in_order(&self) -> bool {
        forall|i: int| 0 <= i < self.ring_slots().len() ==> #[trigger] self.ring_slots()[i] == i
    }

    /// Every record in a slot below `len`, but for the slot `spared`, is in
    /// this cache what it is in `other`: same key, same value, same recorded
    /// ring position.
    pub open spec fn same_records(&self, other: &Self, len: int, spared: int) -> bool {
        forall|slot: int|
            #![trigger self.key_at(slot)]
            #![trigger self.value_at(slot)]
            #![trigger self.index_at(slot)]
            0 <= slot < len && slot != spared ==> self.key_at(slot) == other.key_at(slot)
                && self.value_at(slot) == other.value_at(slot) && self.index_at(slot)
                == other.index_at(slot)
    }

    /// Every record holds in this cache the key and the value that it holds in
    /// `other`.
    pub open spec fn same_contents(&self, other: &Self) -> bool {
        forall|slot: int|
            #![trigger self.key_at(slot)]
            #![trigger self.value_at(slot)]
            0 <= slot < other.ring_slots().len() ==> self.key_at(slot) == other.key_at(slot)
                && self.value_at(slot) == other.value_at(slot)
    }

    /// The ring of slots after a read of `key` with a budget of `count` hops:
    /// as it is, unless the read promotes; then the slot of the key has hopped
    /// through it as its entry hops through the state.
    pub open spec fn touched_slots(&self, key: K, count: nat) -> Seq<usize> {
        if self@.promotes(key) {
            let position = self@.position(key) as nat;
            let distance = self@.tuning.distance(position);
            walked(
                self.ring_slots(),
                position,
                self@.tuning.move_distance(distance),
                self@.tuning.step_size(distance, count),
                self@.tuning.max_pointer,
            )
        } else {
            self.ring_slots()
        }
    }

    /// In a consistent cache the three parts name each other, and the state is
    /// at rest. Every ring position names a record that records that position,
    /// and the state shows the key and value of that record there; every record
    /// records a ring position that names it, so that the ring holds each slot
    /// once. The key index holds exactly the cached keys, and gives for each
    /// the record that holds it, with the value that a lookup finds. The index
    /// holds as many keys as the ring has positions.
    pub proof fn lemma_structure(&self)
        requires
            self.wf(),
        ensures
            self@.inv(),
            self.ring_slots().len() == self@.len(),
            forall|i: int|
                0 <= i < self.ring_slots().len() ==> (#[trigger] self.ring_slots()[i])
                    < self.ring_slots().len() && self.index_at(self.ring_slots()[i] as int) == i
                    && self@.ring[i] == (
                    self.key_at(self.ring_slots()[i] as int),
                    self.value_at(self.ring_slots()[i] as int),
                ),
            forall|slot: int|
                0 <= slot < self.ring_slots().len() ==> (#[trigger] self.index_at(slot))
                    < self.ring_slots().len() && self.ring_slots()[self.index_at(slot) as int]
                    == slot,
            self.ring_slots().no_duplicates(),
            forall|key: K|
                (#[trigger] self.slot_of(key)) is Some ==> self.slot_of(key).unwrap()
                    < self.ring_slots().len() && self@.lookup(key) == Some(
                    self.value_at(self.slot_of(key).unwrap() as int),
                ),
            forall|key: K| (#[trigger] self.slot_of(key)) is Some <==> self@.contains(key),
            forall|key: K|
                (#[trigger] self.slot_of(key)) is Some ==> self.key_at(
                    self.slot_of(key).unwrap() as int,
                ) == key && self@.position(key) == self.index_at(self.slot_of(key).unwrap() as int),
            self.key_index().dom().finite(),
            self.key_index().dom().len() == self@.len(),
    {
        self.lemma_view_inv();
        assert forall|key: K| (#[trigger] self.slot_of(key)) is Some <==> self@.contains(key) by {
            if self.slot_of(key) is Some {
                self.lemma_present(key);
            } else {
                self.lemma_absent(key);
            }
        }
        assert forall|key: K| (#[trigger] self.slot_of(key)) is Some implies self.key_at(
            self.slot_of(key).unwrap() as int,
        ) == key && self@.position(key) == self.index_at(self.slot_of(key).unwrap() as int)
            && self.slot_of(key).unwrap() < self.ring_slots().len() && self@.lookup(key) == Some(
            self.value_at(self.slot_of(key).unwrap() as int),
        ) by {
            self.lemma_present(key);
        }
        assert forall|i: int, j: int|
            0 <= i < self.ring_slots().len() && 0 <= j < self.ring_slots().len() && i
                != j implies self.ring_slots()[i] != self.ring_slots()[j] by {
            assert(self.entries@[self.lru.ring@[i] as int].index == i);
            assert(self.entries@[self.lru.ring@[j] as int].index == j);
        }
    }

    /// The state of a consistent cache is at rest.
    pub proof fn lemma_view_inv(&self)
        requires
            self.wf(),
        ensures
            self@.inv(),
    {
        let keys = self@.keys();
        assert forall|i: int, j: int| 0 <= i < keys.len() && 0 <= j < keys.len() && i != j implies keys[i]
            != keys[j] by {
            let first = self.lru.ring@[i] as int;
            let second = self.lru.ring@[j] as int;
            assert(keys[i] == self.entries@[first].key);
            assert(keys[j] == self.entries@[second].key);
            if keys[i] == keys[j] {
                assert(first == second);
            }
        }
    }

    /// A key whose code the index lacks is not cached.
    proof fn lemma_absent(&self, key: K)
        requires
            self.wf(),
            !slot_index(self.mapping).contains_key(key.spec_code()),
        ensures
            !self@.contains(key),
    {
        let keys = self@.keys();
        if keys.contains(key) {
            let i = choose|i: int| 0 <= i < keys.len() && keys[i] == key;
            let slot = self.lru.ring@[i] as int;
            assert(keys[i] == self.entries@[slot].key);
        }
    }

    /// A key whose code the index holds is cached, in the record that the
    /// index gives, at the ring position that the record records.
    proof fn lemma_present(&self, key: K)
        requires
            self.wf(),
            slot_index(self.mapping).contains_key(key.spec_code()),
        ensures
            ({
                let slot = slot_index(self.mapping)[key.spec_code()] as int;
                &&& 0 <= slot < self.entries@.len()
                &&& self.entries@[slot].key == key
                &&& self.entries@[slot].index < self.lru.ring@.len()
                &&& self.lru.ring@[self.entries@[slot].index as int] == slot
                &&& self@.contains(key)
                &&& self@.position(key) == self.entries@[slot].index
                &&& self@.lookup(key) == Some(self.entries@[slot].value)
            }),
    {
        let slot = slot_index(self.mapping)[key.spec_code()] as int;
        K::lemma_code_identifies(&self.entries@[slot].key, &key);
        let position = self.entries@[slot].index as int;
        self.lemma_view_inv();
        assert(self@.ring[position] == pair_of(self.entries@, self.lru.ring@[position]));
        self@.lemma_entry_found(position);
    }

    /// Builds an empty cache that holds up to `size` entries. A cache that
    /// could hold nothing is refused.
    pub fn new(size: usize) -> (cache: Result<SwapCache<K, V>, ConfigError>)
        ensures
            size == 0 <==> cache is Err,
            cache matches Err(error) ==> error == ConfigError::ZeroCapacity,
            cache matches Ok(built) ==> built.wf() && built@.inv() && built@ =~= CacheState::empty(
                size as nat,
            ),
            cache matches Ok(built) ==> built.ring_slots().len() == 0 && built.slots_in_order()
                && built.key_index() =~= Map::empty(),
    {
        let lru = match Lru::new(size) {
            Err(error) => {
                return Err(error);
            },
            Ok(lru) => lru,
        };
        let cache = SwapCache { mapping: SlotIndex::new(), lru, entries: Vec::new() };
        proof {
            assert(cache@.ring =~= Seq::empty());
            cache.lemma_view_inv();
        }
        Ok(cache)
    }

    /// Looks `key` up and promotes its entry.
    ///
    /// A cached key gets its value back. If its entry stands farther from the
    /// top pointer than the distance threshold, the entry is moved toward the
    /// top, in about `PROMOTION_STEPS` ring swaps, and the tuning adapts; the
    /// value is the same either way. A key that is not cached gets nothing,
    /// and the cache stays as it is.
    ///
    /// A read that does not promote changes nothing at all. One that promotes
    /// rearranges the ring of slots, and with it the ring positions that the
    /// records record; the key index stays as it is, and every record keeps its
    /// slot, its key and its value.
    pub fn get(&mut self, key: &K) -> (value: Option<&V>)
        requires
            old(self).wf(),
        ensures
            final(self).wf(),
            final(self)@.inv(),
            final(self)@ == old(self)@.touch(*key),
            match value {
                Some(found) => old(self)@.lookup(*key) == Some(*found),
                None => old(self)@.lookup(*key) is None,
            },
            value is Some <==> old(self)@.contains(*key),
            !old(self)@.contains(*key) ==> final(self)@ == old(self)@,
            !old(self)@.promotes(*key) ==> *final(self) == *old(self),
            final(self).key_index() == old(self).key_index(),
            final(self).same_contents(old(self)),
            final(self).ring_slots() == old(self).touched_slots(*key, PROMOTION_STEPS as nat),
            value matches Some(found) ==> old(self).slot_of(*key) is Some && final(self).value_at(
                old(self).slot_of(*key).unwrap() as int,
            ) == *found,
    {
        let found = self.update(key, PROMOTION_STEPS);
        proof {
            self.lemma_view_inv();
        }
        match found {
            None => None,
            Some(slot) => Some(&self.entries[slot].value),
        }
    }

    /// Caches `value` under `key`, unless the key is cached already: then the
    /// cache stays as it is, old value and ring order included.
    ///
    /// A new key takes a new ring position while the cache fills. Once the
    /// cache is full it replaces the entry at the top pointer, and the distance
    /// threshold decays by one. Either way the top pointer moves on.
    ///
    /// While the cache fills, the new record takes the next free slot, which
    /// bears the number of the ring position it is given. In a full cache the
    /// new record is written over the evicted one, in its slot, and the ring
    /// of slots stays as it is; the key index loses the evicted key. Every
    /// other record is left alone.
    pub fn put(&mut self, key: K, value: V)
        requires
            old(self).wf(),
        ensures
            final(self).wf(),
            final(self)@.inv(),
            final(self)@ == old(self)@.put(key, value),
            old(self)@.contains(key) ==> final(self)@ == old(self)@,
            old(self)@.contains(key) ==> *final(self) == *old(self),
            !old(self)@.contains(key) && !old(self)@.is_full() ==> ({
                let len = old(self).ring_slots().len();
                &&& final(self).ring_slots() == old(self).ring_slots().push(len as usize)
                &&& final(self).key_index() == old(self).key_index().insert(
                    key.spec_code(),
                    len as usize,
                )
                &&& final(self).key_at(len as int) == key
                &&& final(self).value_at(len as int) == value
                &&& final(self).index_at(len as int) == len
                &&& final(self).same_records(old(self), len as int, len as int)
            }),
            !old(self)@.contains(key) && old(self)@.is_full() ==> ({
                let top = old(self)@.tuning.top as int;
                let slot = old(self).ring_slots()[top];
                &&& final(self).ring_slots() == old(self).ring_slots()
                &&& final(self).key_index() == old(self).key_index().remove(
                    old(self).key_at(slot as int).spec_code(),
                ).insert(key.spec_code(), slot)
                &&& final(self).key_at(slot as int) == key
                &&& final(self).value_at(slot as int) == value
                &&& final(self).index_at(slot as int) == top
                &&& final(self).same_records(
                    old(self),
                    old(self).ring_slots().len() as int,
                    slot as int,
                )
            }),
            old(self).slots_in_order() ==> final(self).slots_in_order(),
    {
        proof {
            self.lemma_view_inv();
            self@.lemma_put_inv(key, value);
        }
        let code: u64 = key.code();
        if self.mapping.contains_key(code) {
            proof {
                self.lemma_present(key);
            }
            return;
        }
        proof {
            self.lemma_absent(key);
        }
        let ghost before = *self;
        let ghost index = slot_index(self.mapping);
        let top: usize = self.lru.top;
        let slot: usize = if self.lru.ring.len() <= self.lru.top {
            // The ring still fills: the new record takes the next slot and the
            // next ring position, which bear the same number.
            let slot: usize = self.entries.len();
            self.entries.push(CacheEntry { key, value, index: slot });
            self.lru.ring.push(slot);
            proof {
                assert(ring_view(self.lru.ring@, self.entries@) =~= before@.ring.push((key, value)));
            }
            slot
        } else {
            // The ring is full: the record at the top pointer gives way.
            let slot: usize = self.lru.ring[top];
            let dead: u64 = self.entries[slot].key.code();
            self.mapping.remove(dead);
            self.entries[slot] = CacheEntry { key, value, index: top };
            if self.lru.min_update_distance > self.lru.move_ratio / 100 {
                self.lru.min_update_distance -= 1;
            }
            proof {
                assert forall|i: int| 0 <= i < self.lru.ring@.len() && i != top implies self.lru.ring@[i]
                    != slot by {
                    assert(before.entries@[before.lru.ring@[i] as int].index == i);
                }
                assert(ring_view(self.lru.ring@, self.entries@) =~= before@.ring.update(
                    top as int,
                    (key, value),
                ));
                assert(index.contains_key(dead));
            }
            slot
        };
        self.mapping.insert(code, slot);
        self.lru.top += 1;
        if self.lru.top > self.lru.max_pointer {
            self.lru.top = 0;
        }
        proof {
            assert(index_agrees(slot_index(self.mapping), self.entries@)) by {
                assert forall|at: int| 0 <= at < self.entries@.len() implies slot_index(
                    self.mapping,
                ).contains_key((#[trigger] self.entries@[at]).key.spec_code()) && slot_index(
                    self.mapping,
                )[self.entries@[at].key.spec_code()] == at by {
                    if at != slot {
                        assert(self.entries@[at] == before.entries@[at]);
                        assert(index.contains_key(before.entries@[at].key.spec_code()));
                    }
                }
            }
        }
    }

    /// Finds the record of `key` and promotes it with a budget of `count`
    /// hops; gives the slot of the record, if the key is cached.
    ///
    /// The record is promoted only if it stands farther from the top pointer
    /// than the distance threshold. It then travels `move_ratio` percent of
    /// its distance, in hops of a `count`-th part of that travel and of at
    /// least one position, and the tuning adapts to the distance. A budget of
    /// no hops at all serves where nothing is promoted.
    ///
    /// Only the ring and the ring positions that the records record change:
    /// the key index stays as it is, and every record keeps its slot, its key
    /// and its value.
    fn update(&mut self, key: &K, count: usize) -> (found: Option<usize>)
        requires
            old(self).wf(),
            count >= 1 || !old(self)@.promotes(*key),
        ensures
            final(self).wf(),
            final(self)@ == old(self)@.touch_with(*key, count as nat),
            found == old(self).slot_of(*key),
            found is Some <==> old(self)@.contains(*key),
            found matches Some(slot) ==> slot < final(self).entries@.len() && old(self)@.lookup(*key)
                == Some(final(self).entries@[slot as int].value),
            !old(self)@.promotes(*key) ==> *final(self) == *old(self),
            final(self).key_index() == old(self).key_index(),
            final(self).same_contents(old(self)),
            final(self).ring_slots() == old(self).touched_slots(*key, count as nat),
    {
        let code: u64 = key.code();
        let slot: usize = match self.mapping.get(code) {
            None => {
                proof {
                    self.lemma_absent(*key);
                }
                return None;
            },
            Some(slot) => slot,
        };
        proof {
            self.lemma_present(*key);
        }
        let start: usize = self.entries[slot].index;
        let distance: usize = self.lru.distance_to_top(start);
        if distance <= self.lru.min_update_distance {
            // Fresh enough: nothing moves.
            return Some(slot);
        }
        let travel: usize = percent(distance, self.lru.move_ratio);
        let lap: usize = travel / count;
        let step: usize = if lap >= 1 {
            lap
        } else {
            1
        };
        let ghost before = *self;
        let ghost size = self.entries@.len();
        let ghost max_pointer = self.lru.max_pointer as nat;
        let ghost target = walked(before.lru.ring@, start as nat, travel as nat, step as nat, max_pointer);
        // The promoted record is lifted out of the ring, which leaves a hole at
        // `current`. Each hop moves the record that stands `step` ahead back
        // into the hole, and the hole forward to where that record stood; with
        // the promoted record in the hole, that is a swap. The record comes
        // down into the hole when the travel is used up.
        let mut current: usize = start;
        let mut left: usize = travel;
        proof {
            assert(self.lru.ring@.update(current as int, slot) =~= self.lru.ring@);
        }
        loop
            invariant_except_break
                walked(
                    self.lru.ring@.update(current as int, slot),
                    current as nat,
                    left as nat,
                    step as nat,
                    max_pointer,
                ) == target,
                step < max_pointer || self.lru.ring@[current as int] == slot,
            invariant
                self.lru.tuning() == before.lru.tuning(),
                self.mapping == before.mapping,
                max_pointer == self.lru.max_pointer,
                max_pointer < usize::MAX,
                self.lru.ring@.len() == size,
                self.entries@.len() == size,
                before.entries@.len() == size,
                size <= max_pointer + 1,
                slot < size,
                current < size,
                step >= 1,
                left <= max_pointer,
                forall|i: int|
                    0 <= i < size && i != current ==> (#[trigger] self.lru.ring@[i]) < size
                        && self.lru.ring@[i] != slot && self.entries@[self.lru.ring@[i] as int].index
                        == i,
                forall|at: int|
                    0 <= at < size && at != slot ==> (#[trigger] self.entries@[at]).index < size
                        && self.entries@[at].index != current
                        && self.lru.ring@[self.entries@[at].index as int] == at,
                forall|at: int|
                    0 <= at < size ==> (#[trigger] self.entries@[at]).key == before.entries@[at].key
                        && self.entries@[at].value == before.entries@[at].value,
            ensures
                self.lru.ring@.update(current as int, slot) == target,
            decreases left,
        {
            // The position `step` ahead, folded back by `max_pointer` once it
            // reaches it; taken from the room left ahead, so that no sum overflows.
            let room: usize = self.lru.max_pointer - current;
            let next: usize = if step >= room {
                step - room
            } else {
                current + step
            };
            if next >= self.lru.ring.len() {
                // The hop would leave the occupied part of the ring.
                break;
            }
            let ghost hole = self.lru.ring@.update(current as int, slot);
            let demoted: usize = self.lru.ring[next];
            self.entries[demoted].index = current;
            self.lru.ring[current] = demoted;
            proof {
                assert(self.lru.ring@.update(next as int, slot) =~= swapped(
                    hole,
                    current as int,
                    next as int,
                ));
            }
            current = next;
            if left > step {
                left -= step;
            } else {
                break;
            }
        }
        self.lru.adapt(distance);
        self.entries[slot].index = current;
        self.lru.ring[current] = slot;
        proof {
            assert(self.lru.ring@ =~= target);
            lemma_promotion_view(
                before.lru.ring@,
                before.entries@,
                self.lru.ring@,
                self.entries@,
                start as nat,
                travel as nat,
                step as nat,
                max_pointer,
            );
            assert(index_agrees(slot_index(self.mapping), self.entries@)) by {
                assert forall|at: int| 0 <= at < self.entries@.len() implies slot_index(
                    self.mapping,
                ).contains_key((#[trigger] self.entries@[at]).key.spec_code()) && slot_index(
                    self.mapping,
                )[self.entries@[at].key.spec_code()] == at by {
                    assert(self.entries@[at].key == before.entries@[at].key);
                }
            }
        }
        Some(slot)
    }

    /// Number of cached keys.
    pub fn len(&self) -> (len: usize)
        ensures
            len == self@.len(),
    {
        self.lru.ring.len()
    }

    /// Number of entries that the cache holds at most.
    pub fn capacity(&self) -> (capacity: usize)
        requires
            self.wf(),
        ensures
            capacity == self@.capacity(),
    {
        self.lru.capacity()
    }

    /// Percentage of its distance to the top that a promoted entry travels.
    pub fn move_ratio(&self) -> (ratio: usize)
        ensures
            ratio == self@.tuning.move_ratio,
    {
        self.lru.move_ratio()
    }

    /// Distance from the top up to which a read leaves an entry where it is.
    pub fn min_update_distance(&self) -> (distance: usize)
        ensures
            distance == self@.tuning.min_update_distance,
    {
        self.lru.min_update_distance()
    }

    /// Bound up to which promotions raise the distance threshold.
    pub fn min_update_limit(&self) -> (limit: usize)
        ensures
            limit == self@.tuning.min_update_limit,
    {
        self.lru.min_update_limit()
    }
}

} // verus!
