//! The scalar state of the ring controller and the arithmetic that governs
//! promotion: distances to the top pointer, step sizes, and the adaptive
//! tuning of how far a promoted entry travels.

use vstd::prelude::*;

verus! {

/// Percentage of its distance to the top that a promoted entry travels in a
/// freshly built cache.
pub const DEFAULT_MOVE: usize = 50;

/// Number of ring swaps a promotion aims for; the step size of a promotion is
/// its travel divided by this budget.
pub const PROMOTION_STEPS: usize = 10;

/// Upper bound of the distance threshold for a ring whose last position is
/// `max_pointer` and whose promotions travel `move_ratio` percent.
pub open spec fn limit_for(max_pointer: nat, move_ratio: nat) -> nat {
    (1 + max_pointer - (max_pointer * move_ratio) / 100) as nat
}

/// The pointers and tuning parameters of a ring controller.
pub struct Tuning {
    /// Next ring position to fill or evict, and the fresh edge of the ring.
    pub top: nat,
    /// Last ring position: the capacity minus one.
    pub max_pointer: nat,
    /// Percentage of its distance to `top` that a promoted entry travels.
    pub move_ratio: nat,
    /// An entry at most this far from `top` is left where it is by a read.
    pub min_update_distance: nat,
    /// Bound up to which promotions raise `min_update_distance`.
    pub min_update_limit: nat,
    /// Promotions from nearer than this lower `move_ratio`, others raise it.
    pub long_distance: nat,
}

impl Tuning {
    /// The tuning of an empty cache of the given capacity.
    pub open spec fn fresh(capacity: nat) -> Tuning {
        Tuning {
            top: 0,
            max_pointer: (capacity - 1) as nat,
            move_ratio: DEFAULT_MOVE as nat,
            min_update_distance: (capacity * (DEFAULT_MOVE as nat)) / 100,
            min_update_limit: limit_for((capacity - 1) as nat, DEFAULT_MOVE as nat),
            long_distance: capacity / 4,
        }
    }

    pub open spec fn capacity(self) -> nat {
        self.max_pointer + 1
    }

    /// What holds of the tuning of every cache at rest.
    pub open spec fn wf(self) -> bool {
        &&& self.top <= self.max_pointer
        &&& self.move_ratio <= 99
        &&& self.min_update_distance <= self.capacity()
        &&& self.min_update_limit == limit_for(self.max_pointer, self.move_ratio)
        &&& self.long_distance == self.capacity() / 4
    }

    /// The ratio lies in `[1, 99]` and the distance threshold within its limit.
    pub open spec fn in_window(self) -> bool {
        &&& 1 <= self.move_ratio <= 99
        &&& self.min_update_distance <= self.min_update_limit
    }

    /// Circular forward distance from ring position `index` to `top`.
    pub open spec fn distance(self, index: nat) -> nat {
        if index <= self.top {
            (self.top - index) as nat
        } else {
            (self.top + self.max_pointer - index) as nat
        }
    }

    /// How far a promotion from distance `distance` travels in all.
    pub open spec fn move_distance(self, distance: nat) -> nat {
        (distance * self.move_ratio) / 100
    }

    /// Length of one hop of a promotion from `distance` that aims for `count` hops.
    pub open spec fn step_size(self, distance: nat, count: nat) -> nat {
        let lap = self.move_distance(distance) / count;
        if lap >= 1 {
            lap
        } else {
            1
        }
    }

    /// The top pointer moved one position on, back to zero past the last.
    pub open spec fn advanced(self) -> Tuning {
        Tuning { top: if self.top + 1 > self.max_pointer { 0 } else { self.top + 1 }, ..self }
    }

    /// The distance threshold lowered by one after an eviction, while it
    /// exceeds the hundredth part of the ratio. That part is zero for every
    /// ratio that occurs, so the threshold falls until it is zero.
    pub open spec fn decayed(self) -> Tuning {
        Tuning {
            min_update_distance: if self.min_update_distance > self.move_ratio / 100 {
                (self.min_update_distance - 1) as nat
            } else {
                self.min_update_distance
            },
            ..self
        }
    }

    /// The ratio after a promotion from `distance`: lowered when the entry was
    /// near, raised when it was far.
    pub open spec fn adapted_ratio(self, distance: nat) -> nat {
        if distance < self.long_distance && self.move_ratio >= 1 {
            (self.move_ratio - 1) as nat
        } else if self.move_ratio < 99 {
            self.move_ratio + 1
        } else {
            self.move_ratio
        }
    }

    /// The tuning after a promotion from `distance`: the threshold rises by one
    /// while below its limit, the ratio adapts, and the limit follows the ratio.
    pub open spec fn adapted(self, distance: nat) -> Tuning {
        Tuning {
            min_update_distance: if self.min_update_distance < self.min_update_limit {
                self.min_update_distance + 1
            } else {
                self.min_update_distance
            },
            move_ratio: self.adapted_ratio(distance),
            min_update_limit: limit_for(self.max_pointer, self.adapted_ratio(distance)),
            ..self
        }
    }
}

impl Tuning {
    /// A promotion from `distance` takes the tuning out of its window: it
    /// lowers a ratio of one to zero, or raises the ratio so far that the
    /// recomputed limit falls below the distance threshold.
    pub open spec fn strained_by(self, distance: nat) -> bool {
        if distance < self.long_distance {
            self.move_ratio == 1
        } else {
            &&& self.move_ratio < 99
            &&& self.adapted(distance).min_update_distance > limit_for(
                self.max_pointer,
                self.move_ratio + 1,
            )
        }
    }
}

/// A percentage of an amount never exceeds the amount.
pub proof fn lemma_percent_bounded(amount: nat, ratio: nat)
    requires
        ratio <= 100,
    ensures
        (amount * ratio) / 100 <= amount,
        ratio <= 99 && amount > 0 ==> (amount * ratio) / 100 < amount,
{
    assert(amount * ratio <= amount * 100) by (nonlinear_arith)
        requires
            ratio <= 100,
    ;
    if ratio <= 99 && amount > 0 {
        assert(amount * ratio < amount * 100) by (nonlinear_arith)
            requires
                ratio <= 99,
                amount > 0,
        ;
    }
}

/// The limit of the distance threshold lies between one and the capacity, and
/// a larger ratio never gives a larger limit.
pub proof fn lemma_limit_bounds(max_pointer: nat, low: nat, high: nat)
    requires
        low <= high <= 100,
    ensures
        1 <= limit_for(max_pointer, high) <= limit_for(max_pointer, low) <= max_pointer + 1,
{
    lemma_percent_bounded(max_pointer, low);
    lemma_percent_bounded(max_pointer, high);
    assert(max_pointer * low <= max_pointer * high) by (nonlinear_arith)
        requires
            low <= high,
    ;
}

/// Advancing the top pointer, lowering the threshold after an eviction and
/// adapting after a promotion each keep a tuning well formed.
pub proof fn lemma_tuning_steps(tuning: Tuning, distance: nat)
    requires
        tuning.wf(),
    ensures
        tuning.advanced().wf(),
        tuning.decayed().wf(),
        tuning.adapted(distance).wf(),
{
    lemma_limit_bounds(tuning.max_pointer, tuning.move_ratio, tuning.move_ratio);
}

/// A promotion keeps the tuning in its window exactly when it does not strain
/// it.
pub proof fn lemma_adapted_window(tuning: Tuning, distance: nat)
    requires
        tuning.wf(),
        tuning.in_window(),
    ensures
        tuning.adapted(distance).in_window() <==> !tuning.strained_by(distance),
{
    if distance < tuning.long_distance {
        lemma_limit_bounds(tuning.max_pointer, (tuning.move_ratio - 1) as nat, tuning.move_ratio);
    }
}

/// `amount * ratio / 100`, computed without overflow.
pub fn percent(amount: usize, ratio: usize) -> (part: usize)
    requires
        ratio <= 100,
    ensures
        part == (amount * ratio) / 100,
        part <= amount,
{
    proof {
        lemma_percent_bounded(amount as nat, ratio as nat);
        assert(amount * ratio <= usize::MAX * 100) by (nonlinear_arith)
            requires
                ratio <= 100,
                amount <= usize::MAX,
        ;
    }
    let wide: u128 = (amount as u128) * (ratio as u128);
    (wide / 100) as usize
}

} // verus!
