//! What holds of the cache whatever it is asked to do.

use vstd::prelude::*;
use vstd::arithmetic::div_mod::{
    lemma_fundamental_div_mod, lemma_fundamental_div_mod_converse, lemma_mod_bound,
    lemma_small_mod,
};
use crate::model::CacheState;
use crate::ring::{
    hops, landing, lemma_full_ring_holds_walk, lemma_hops_within_travel, lemma_walked_lands,
    lemma_walked_rearranges, stays_inside,
};
use crate::tuning::{lemma_adapted_window, lemma_percent_bounded, PROMOTION_STEPS};

verus! {

/// The number of cached keys never exceeds the capacity: the cached keys are
/// as many as the occupied ring positions, and those are at most the capacity.
pub proof fn lemma_capacity_bound<K, V>(state: CacheState<K, V>)
    requires
        state.inv(),
    ensures
        state.keys().to_set().finite(),
        state.keys().to_set().len() == state.len(),
        state.len() <= state.capacity(),
{
    state.keys().unique_seq_to_set();
    vstd::seq_lib::seq_to_set_is_finite(state.keys());
}

/// Putting a key that is cached changes nothing: not its value, not the ring
/// order, not the tuning.
pub proof fn lemma_put_cached_key<K, V>(state: CacheState<K, V>, key: K, value: V)
    requires
        state.contains(key),
    ensures
        state.put(key, value) == state,
        state.put(key, value).lookup(key) == state.lookup(key),
{
}

/// A key that is not cached is not found, and reading it leaves the cache as
/// it was.
pub proof fn lemma_miss<K, V>(state: CacheState<K, V>, key: K)
    requires
        !state.contains(key),
    ensures
        state.lookup(key) is None,
        state.touch(key) == state,
{
}

/// Putting a key that is not cached makes it found with the value put. In a
/// full cache the key at the top pointer is no longer found; every other key
/// is found as before.
pub proof fn lemma_put_lookup<K, V>(state: CacheState<K, V>, key: K, value: V, other: K)
    requires
        state.inv(),
        !state.contains(key),
    ensures
        state.put(key, value).lookup(key) == Some(value),
        other != key ==> state.put(key, value).lookup(other) == (if state.is_full() && other
            == state.ring[state.tuning.top as int].0 {
            None
        } else {
            state.lookup(other)
        }),
{
    let after = state.put(key, value);
    state.lemma_put_inv(key, value);
    let place = if state.is_full() {
        state.tuning.top as int
    } else {
        state.ring.len() as int
    };
    after.lemma_entry_found(place);
    if other != key {
        if after.contains(other) {
            after.lemma_position(other);
            let at = after.position(other);
            assert(after.ring[at] == state.ring[at]);
            state.lemma_entry_found(at);
            after.lemma_entry_found(at);
        } else if state.contains(other) {
            state.lemma_position(other);
            let at = state.position(other);
            if at != place {
                assert(after.ring[at] == state.ring[at]);
                after.lemma_entry_found(at);
            }
        }
        if state.is_full() {
            state.lemma_entry_found(place);
        }
    }
}

/// Reading a key never changes what is cached: after a read every key is found
/// as before, with the value it had.
pub proof fn lemma_get_keeps_contents<K, V>(state: CacheState<K, V>, key: K, other: K)
    requires
        state.inv(),
    ensures
        state.touch(key).inv(),
        state.touch(key).lookup(other) == state.lookup(other),
        state.touch(key).len() == state.len(),
{
    state.lemma_touch_inv(key, PROMOTION_STEPS as nat);
    state.lemma_touch_keeps_lookup(key, PROMOTION_STEPS as nat, other);
    if state.promotes(key) {
        state.lemma_position(key);
        let index = state.position(key) as nat;
        let distance = state.tuning.distance(index);
        lemma_walked_rearranges(
            state.ring,
            index,
            state.tuning.move_distance(distance),
            state.tuning.step_size(distance, PROMOTION_STEPS as nat),
            state.tuning.max_pointer,
        );
    }
}

/// The ring never shrinks: an insertion lengthens it by one position or, for a
/// cached key or in a full cache, leaves its length; a read leaves its length.
pub proof fn lemma_ring_never_shrinks<K, V>(state: CacheState<K, V>, key: K, value: V)
    requires
        state.inv(),
    ensures
        state.put(key, value).len() == (if state.contains(key) || state.is_full() {
            state.len()
        } else {
            state.len() + 1
        }),
        state.touch(key).len() == state.len(),
{
    lemma_get_keeps_contents(state, key, key);
}

/// A new cache starts with its tuning in the window: the ratio at its default
/// and the distance threshold within its limit.
pub proof fn lemma_new_in_window<K, V>(capacity: nat)
    requires
        capacity >= 1,
    ensures
        CacheState::<K, V>::empty(capacity).tuning.in_window(),
{
}

/// An insertion leaves the tuning in its window: the ratio in `[1, 99]` and
/// the distance threshold within its limit.
pub proof fn lemma_put_keeps_window<K, V>(state: CacheState<K, V>, key: K, value: V)
    requires
        state.inv(),
        state.tuning.in_window(),
    ensures
        state.put(key, value).tuning.in_window(),
{
}

/// A read leaves the tuning in its window unless it promotes an entry from a
/// distance that strains the tuning, and only then does it not.
pub proof fn lemma_get_keeps_window<K, V>(state: CacheState<K, V>, key: K)
    requires
        state.inv(),
        state.tuning.in_window(),
    ensures
        state.touch(key).tuning.in_window() <==> !(state.promotes(key) && state.tuning.strained_by(
            state.tuning.distance(state.position(key) as nat),
        )),
{
    if state.promotes(key) {
        lemma_adapted_window(state.tuning, state.tuning.distance(state.position(key) as nat));
    }
}

/// A read that promotes sets the entry of its key down at the landing position
/// of the promotion: one hop on, and a further hop for each step of travel
/// that is left, unless a hop would leave the occupied ring.
pub proof fn lemma_get_lands<K, V>(state: CacheState<K, V>, key: K)
    requires
        state.inv(),
        state.promotes(key),
    ensures
        state.touch(key).contains(key),
        state.touch(key).position(key) == landing(
            state.ring.len(),
            state.position(key) as nat,
            state.tuning.move_distance(state.tuning.distance(state.position(key) as nat)),
            state.tuning.step_size(
                state.tuning.distance(state.position(key) as nat),
                PROMOTION_STEPS as nat,
            ),
            state.tuning.max_pointer,
        ),
{
    state.lemma_position(key);
    let index = state.position(key) as nat;
    let distance = state.tuning.distance(index);
    let travel = state.tuning.move_distance(distance);
    let step = state.tuning.step_size(distance, PROMOTION_STEPS as nat);
    let after = state.touch(key);
    state.lemma_touch_inv(key, PROMOTION_STEPS as nat);
    lemma_walked_lands(state.ring, index, travel, step, state.tuning.max_pointer);
    lemma_walked_rearranges(state.ring, index, travel, step, state.tuning.max_pointer);
    after.lemma_entry_found(
        landing(state.ring.len(), index, travel, step, state.tuning.max_pointer) as int,
    );
}

/// In a full cache a promotion is never cut short: every hop lands on an
/// occupied ring position. Only while the ring still fills can a hop point
/// past the occupied positions, and end the promotion where it stands.
pub proof fn lemma_full_cache_promotes_whole<K, V>(state: CacheState<K, V>, key: K, count: nat)
    requires
        state.inv(),
        state.is_full(),
        state.promotes(key),
        count >= 1,
    ensures
        stays_inside(
            state.ring.len(),
            state.position(key) as nat,
            state.tuning.move_distance(state.tuning.distance(state.position(key) as nat)),
            state.tuning.step_size(state.tuning.distance(state.position(key) as nat), count),
            state.tuning.max_pointer,
        ),
{
    state.lemma_position(key);
    let index = state.position(key) as nat;
    let distance = state.tuning.distance(index);
    let travel = state.tuning.move_distance(distance);
    let step = state.tuning.step_size(distance, count);
    lemma_percent_bounded(distance, state.tuning.move_ratio);
    assert(travel / count <= travel) by (nonlinear_arith)
        requires
            count >= 1,
    ;
    lemma_full_ring_holds_walk(index, travel, step, state.tuning.max_pointer);
}

/// A promotion is bounded work: whatever the size of the ring and the distance
/// of the entry, it makes at most twice as many swaps as its budget of hops.
pub proof fn lemma_promotion_bounded<K, V>(state: CacheState<K, V>, index: nat, count: nat)
    requires
        count >= 1,
    ensures
        hops(
            state.ring.len(),
            index,
            state.tuning.move_distance(state.tuning.distance(index)),
            state.tuning.step_size(state.tuning.distance(index), count),
            state.tuning.max_pointer,
        ) <= 2 * count,
{
    let distance = state.tuning.distance(index);
    let travel = state.tuning.move_distance(distance);
    let step = state.tuning.step_size(distance, count);
    let made = hops(state.ring.len(), index, travel, step, state.tuning.max_pointer);
    lemma_hops_within_travel(state.ring.len(), index, travel, step, state.tuning.max_pointer);
    if made > 1 {
        let lap = travel / count;
        lemma_fundamental_div_mod(travel as int, count as int);
        if lap >= 1 {
            assert(made - 1 < 2 * count) by (nonlinear_arith)
                requires
                    (made - 1) * lap < travel,
                    travel == count * lap + (travel % count),
                    0 <= travel % count < count,
                    lap >= 1,
                    count >= 1,
            ;
        } else {
            assert(made - 1 < count) by (nonlinear_arith)
                requires
                    (made - 1) * step < travel,
                    step == 1,
                    travel == count * lap + (travel % count),
                    0 <= travel % count < count,
                    lap == 0,
            ;
        }
    }
}

/// The keys of a sequence of items.
pub open spec fn item_keys<K, V>(items: Seq<(K, V)>) -> Seq<K> {
    items.map_values(|item: (K, V)| item.0)
}

/// How many insertions ago the entry at a ring position was put, in a cache
/// that has only been put into: one for the position just behind the top
/// pointer, and one more for each position farther back round the ring.
spec fn age(top: int, position: int, capacity: int) -> int {
    if position < top {
        top - position
    } else {
        top + capacity - position
    }
}

/// The remainder of a successor: one more than the remainder, or zero where
/// that reaches the divisor.
proof fn lemma_mod_successor(x: int, d: int)
    requires
        x >= 0,
        d >= 1,
    ensures
        (x + 1) % d == (if x % d + 1 >= d {
            0
        } else {
            x % d + 1
        }),
{
    let q = x / d;
    let r = x % d;
    lemma_fundamental_div_mod(x, d);
    lemma_mod_bound(x, d);
    if r + 1 >= d {
        assert(x + 1 == (q + 1) * d + 0) by (nonlinear_arith)
            requires
                x == d * q + r,
                r + 1 == d,
        ;
        lemma_fundamental_div_mod_converse(x + 1, d, q + 1, 0);
    } else {
        assert(x + 1 == q * d + (r + 1)) by (nonlinear_arith)
            requires
                x == d * q + r,
        ;
        lemma_fundamental_div_mod_converse(x + 1, d, q, r + 1);
    }
}

/// After distinct keys have been put into an empty cache and nothing was
/// read, the ring holds the latest items, each at the position that its age
/// gives.
proof fn lemma_filled_shape<K, V>(capacity: nat, items: Seq<(K, V)>)
    requires
        capacity >= 1,
        item_keys(items).no_duplicates(),
    ensures
        ({
            let state = CacheState::<K, V>::empty(capacity).put_all(items);
            &&& state.inv()
            &&& state.tuning.max_pointer == capacity - 1
            &&& state.tuning.move_ratio == 50
            &&& state.tuning.top == items.len() % capacity
            &&& state.ring.len() == if items.len() <= capacity {
                items.len()
            } else {
                capacity
            }
            &&& forall|at: int|
                0 <= at < state.ring.len() ==> 1 <= age(state.tuning.top as int, at, capacity as int)
                    <= items.len() && #[trigger] state.ring[at] == items[items.len() - age(
                    state.tuning.top as int,
                    at,
                    capacity as int,
                )]
        }),
    decreases items.len(),
{
    let empty = CacheState::<K, V>::empty(capacity);
    CacheState::<K, V>::lemma_empty(capacity);
    if items.len() == 0 {
        lemma_small_mod(0, capacity);
    } else {
        lemma_mod_successor(items.len() - 1, capacity as int);
        let rest = items.drop_last();
        let last = items.last();
        let count = items.len() as int;
        assert(item_keys(rest) =~= item_keys(items).drop_last());
        lemma_filled_shape(capacity, rest);
        let prior = empty.put_all(rest);
        let state = empty.put_all(items);
        assert(!prior.contains(last.0)) by {
            if prior.contains(last.0) {
                prior.lemma_position(last.0);
                let at = prior.position(last.0);
                let source = count - 1 - age(prior.tuning.top as int, at, capacity as int);
                assert(prior.ring[at] == rest[source]);
                assert(item_keys(items)[source] == item_keys(items)[count - 1]);
            }
        }
        prior.lemma_put_inv(last.0, last.1);
        assert forall|at: int| 0 <= at < state.ring.len() implies 1 <= age(
            state.tuning.top as int,
            at,
            capacity as int,
        ) <= items.len() && #[trigger] state.ring[at] == items[items.len() - age(
            state.tuning.top as int,
            at,
            capacity as int,
        )] by {
            let place = if prior.is_full() {
                prior.tuning.top as int
            } else {
                prior.ring.len() as int
            };
            if at != place {
                assert(state.ring[at] == prior.ring[at]);
                let source = count - 1 - age(prior.tuning.top as int, at, capacity as int);
                assert(prior.ring[at] == rest[source]);
            }
        }
    }
}

/// With no read in between, the top pointer counts the insertions round the
/// ring: after distinct keys have been put into an empty cache it stands at
/// their number modulo the capacity, the ring holds as many entries as were
/// put, up to the capacity, and the ratio is still at its default.
pub proof fn lemma_fill_top<K, V>(capacity: nat, items: Seq<(K, V)>)
    requires
        capacity >= 1,
        item_keys(items).no_duplicates(),
    ensures
        CacheState::<K, V>::empty(capacity).put_all(items).tuning.top == items.len() % capacity,
        CacheState::<K, V>::empty(capacity).put_all(items).len() == (if items.len() <= capacity {
            items.len()
        } else {
            capacity
        }),
        CacheState::<K, V>::empty(capacity).put_all(items).tuning.move_ratio == 50,
{
    lemma_filled_shape(capacity, items);
}

/// With no read in between, insertions evict first in, first out: after
/// distinct keys have been put into an empty cache, the latest `capacity` of
/// them are found with the values put, and all earlier ones are gone.
pub proof fn lemma_fifo_eviction<K, V>(capacity: nat, items: Seq<(K, V)>, i: int)
    requires
        capacity >= 1,
        item_keys(items).no_duplicates(),
        0 <= i < items.len(),
    ensures
        CacheState::<K, V>::empty(capacity).put_all(items).lookup(items[i].0) == (if i + capacity
            >= items.len() {
            Some(items[i].1)
        } else {
            None
        }),
{
    let state = CacheState::<K, V>::empty(capacity).put_all(items);
    let count = items.len() as int;
    let top = state.tuning.top as int;
    lemma_filled_shape(capacity, items);
    if i + capacity >= count {
        let back = count - i;
        let at = if back <= top {
            top - back
        } else {
            top + capacity - back
        };
        assert(age(top, at, capacity as int) == back);
        assert(state.ring[at] == items[i]);
        state.lemma_entry_found(at);
    } else {
        if state.contains(items[i].0) {
            state.lemma_position(items[i].0);
            let at = state.position(items[i].0);
            let source = count - age(top, at, capacity as int);
            assert(state.ring[at] == items[source]);
            assert(item_keys(items)[source] == item_keys(items)[i]);
        }
    }
}

/// Distinct keys put into an empty cache that has room for all of them are
/// all found, each with the value put.
pub proof fn lemma_fill_retrievable<K, V>(capacity: nat, items: Seq<(K, V)>, i: int)
    requires
        capacity >= 1,
        items.len() <= capacity,
        item_keys(items).no_duplicates(),
        0 <= i < items.len(),
    ensures
        CacheState::<K, V>::empty(capacity).put_all(items).lookup(items[i].0) == Some(items[i].1),
{
    lemma_fifo_eviction(capacity, items, i);
}

} // verus!
