//! Promotion as a chain of ring swaps.
//!
//! A promoted entry hops forward through the ring a fixed number of positions
//! at a time, trading places with whatever stands where it lands, until it has
//! used up the travel it was granted.

use vstd::prelude::*;

verus! {

/// Ring position `step` ahead of `current`, folded back by `max_pointer` once
/// it reaches it.
pub open spec fn destination(current: nat, step: nat, max_pointer: nat) -> nat {
    if current + step >= max_pointer {
        (current + step - max_pointer) as nat
    } else {
        current + step
    }
}

/// The ring with the items at positions `a` and `b` exchanged.
pub open spec fn swapped<T>(ring: Seq<T>, a: int, b: int) -> Seq<T> {
    ring.update(a, ring[b]).update(b, ring[a])
}

/// The ring after the item at `current` has been promoted by `travel`, in
/// hops of `step` positions.
///
/// The item always makes one hop and goes on while travel is left. A hop
/// whose destination lies outside the occupied part of the ring is not made,
/// and ends the promotion.
pub open spec fn walked<T>(ring: Seq<T>, current: nat, travel: nat, step: nat, max_pointer: nat) -> Seq<T>
    decreases travel,
{
    let next = destination(current, step, max_pointer);
    if step == 0 || next >= ring.len() {
        ring
    } else {
        let hopped = swapped(ring, current as int, next as int);
        if travel > step {
            walked(hopped, next, (travel - step) as nat, step, max_pointer)
        } else {
            hopped
        }
    }
}

/// The position at which the promotion of [`walked`] sets the promoted item
/// down, in a ring of `len` positions.
pub open spec fn landing(len: nat, current: nat, travel: nat, step: nat, max_pointer: nat) -> nat
    decreases travel,
{
    let next = destination(current, step, max_pointer);
    if step == 0 || next >= len {
        current
    } else if travel > step {
        landing(len, next, (travel - step) as nat, step, max_pointer)
    } else {
        next
    }
}

/// Number of swaps that the promotion of [`walked`] makes in a ring of `len`
/// positions.
pub open spec fn hops(len: nat, current: nat, travel: nat, step: nat, max_pointer: nat) -> nat
    decreases travel,
{
    let next = destination(current, step, max_pointer);
    if step == 0 || next >= len {
        0
    } else if travel > step {
        1 + hops(len, next, (travel - step) as nat, step, max_pointer)
    } else {
        1
    }
}

/// Every hop of the promotion of [`walked`] lands in a ring of `len`
/// positions, so that the promotion uses up its travel.
pub open spec fn stays_inside(len: nat, current: nat, travel: nat, step: nat, max_pointer: nat) -> bool
    decreases travel,
{
    let next = destination(current, step, max_pointer);
    &&& next < len
    &&& (step != 0 && travel > step ==> stays_inside(
        len,
        next,
        (travel - step) as nat,
        step,
        max_pointer,
    ))
}

/// A swap rearranges the ring: it keeps its length and its items, and brings
/// no item in twice.
pub proof fn lemma_swapped_rearranges<T>(ring: Seq<T>, a: int, b: int)
    requires
        0 <= a < ring.len(),
        0 <= b < ring.len(),
    ensures
        swapped(ring, a, b).len() == ring.len(),
        forall|item: T| swapped(ring, a, b).contains(item) <==> ring.contains(item),
        ring.no_duplicates() ==> swapped(ring, a, b).no_duplicates(),
{
    let after = swapped(ring, a, b);
    assert forall|item: T| after.contains(item) <==> ring.contains(item) by {
        if after.contains(item) {
            let i = choose|i: int| 0 <= i < after.len() && after[i] == item;
            let origin = if i == a { b } else if i == b { a } else { i };
            assert(ring[origin] == item);
        }
        if ring.contains(item) {
            let i = choose|i: int| 0 <= i < ring.len() && ring[i] == item;
            let moved = if i == a { b } else if i == b { a } else { i };
            assert(after[moved] == item);
        }
    }
    if ring.no_duplicates() {
        assert forall|i: int, j: int|
            0 <= i < after.len() && 0 <= j < after.len() && i != j implies after[i] != after[j] by {
            let from_i = if i == a { b } else if i == b { a } else { i };
            let from_j = if j == a { b } else if j == b { a } else { j };
            assert(after[i] == ring[from_i]);
            assert(after[j] == ring[from_j]);
        }
    }
}

/// A promotion rearranges the ring: it keeps its length and its items, and
/// brings no item in twice.
pub proof fn lemma_walked_rearranges<T>(ring: Seq<T>, current: nat, travel: nat, step: nat, max_pointer: nat)
    requires
        current < ring.len(),
    ensures
        walked(ring, current, travel, step, max_pointer).len() == ring.len(),
        forall|item: T|
            walked(ring, current, travel, step, max_pointer).contains(item) <==> ring.contains(item),
        ring.no_duplicates() ==> walked(ring, current, travel, step, max_pointer).no_duplicates(),
    decreases travel,
{
    let next = destination(current, step, max_pointer);
    if step != 0 && next < ring.len() {
        lemma_swapped_rearranges(ring, current as int, next as int);
        if travel > step {
            lemma_walked_rearranges(
                swapped(ring, current as int, next as int),
                next,
                (travel - step) as nat,
                step,
                max_pointer,
            );
        }
    }
}

/// Promoting and then reading a component of every item gives what reading
/// the component first and then promoting gives.
pub proof fn lemma_walked_commutes<T, U>(
    ring: Seq<T>,
    part: spec_fn(T) -> U,
    current: nat,
    travel: nat,
    step: nat,
    max_pointer: nat,
)
    requires
        current < ring.len(),
    ensures
        walked(ring, current, travel, step, max_pointer).map_values(part) == walked(
            ring.map_values(part),
            current,
            travel,
            step,
            max_pointer,
        ),
    decreases travel,
{
    let next = destination(current, step, max_pointer);
    if step != 0 && next < ring.len() {
        let hopped = swapped(ring, current as int, next as int);
        assert(hopped.map_values(part) =~= swapped(ring.map_values(part), current as int, next as int));
        if travel > step {
            lemma_walked_commutes(hopped, part, next, (travel - step) as nat, step, max_pointer);
        }
    }
}

/// After a promotion the promoted item stands at its landing position.
pub proof fn lemma_walked_lands<T>(ring: Seq<T>, current: nat, travel: nat, step: nat, max_pointer: nat)
    requires
        current < ring.len(),
    ensures
        landing(ring.len(), current, travel, step, max_pointer) < ring.len(),
        walked(ring, current, travel, step, max_pointer)[landing(
            ring.len(),
            current,
            travel,
            step,
            max_pointer,
        ) as int] == ring[current as int],
    decreases travel,
{
    let next = destination(current, step, max_pointer);
    if step != 0 && next < ring.len() && travel > step {
        lemma_walked_lands(
            swapped(ring, current as int, next as int),
            next,
            (travel - step) as nat,
            step,
            max_pointer,
        );
    }
}

/// In a ring whose every position is occupied, hops that are no longer than
/// the ring all land inside it.
pub proof fn lemma_full_ring_holds_walk(current: nat, travel: nat, step: nat, max_pointer: nat)
    requires
        current <= max_pointer,
        1 <= step <= max_pointer,
    ensures
        stays_inside(max_pointer + 1, current, travel, step, max_pointer),
    decreases travel,
{
    if travel > step {
        lemma_full_ring_holds_walk(
            destination(current, step, max_pointer),
            (travel - step) as nat,
            step,
            max_pointer,
        );
    }
}

/// A promotion hops only while travel is left: all its hops but the last
/// together cover less than the travel.
pub proof fn lemma_hops_within_travel(len: nat, current: nat, travel: nat, step: nat, max_pointer: nat)
    ensures
        hops(len, current, travel, step, max_pointer) <= 1 || (hops(
            len,
            current,
            travel,
            step,
            max_pointer,
        ) - 1) * step < travel,
    decreases travel,
{
    let next = destination(current, step, max_pointer);
    if step != 0 && next < len && travel > step {
        let made = hops(len, current, travel, step, max_pointer);
        let rest = hops(len, next, (travel - step) as nat, step, max_pointer);
        lemma_hops_within_travel(len, next, (travel - step) as nat, step, max_pointer);
        assert(made == 1 + rest);
        if rest == 1 {
            assert((made - 1) * step == step) by (nonlinear_arith)
                requires
                    made == 2,
            ;
        } else if rest > 1 {
            assert((made - 1) * step == (rest - 1) * step + step) by (nonlinear_arith)
                requires
                    made == 1 + rest,
            ;
        }
    }
}

} // verus!
