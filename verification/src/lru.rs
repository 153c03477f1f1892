//! The ring controller: the ring of slot identifiers, the top pointer and the
//! adaptive tuning parameters.

use vstd::prelude::*;
use crate::error::ConfigError;
use crate::tuning::{lemma_tuning_steps, limit_for, percent, Tuning, DEFAULT_MOVE};

verus! {

/// Ring controller of a cache.
///
/// The ring orders the occupied slots of the entry store from stale to fresh;
/// `top` is the position that the next insertion fills.
pub struct Lru {
    pub(crate) ring: Vec<usize>,
    pub(crate) top: usize,
    pub(crate) max_pointer: usize,
    pub(crate) move_ratio: usize,
    pub(crate) min_update_distance: usize,
    pub(crate) min_update_limit: usize,
    pub(crate) long_distance: usize,
}

impl Lru {
    /// The pointers and tuning parameters.
    pub open(crate) spec fn tuning(&self) -> Tuning {
        Tuning {
            top: self.top as nat,
            max_pointer: self.max_pointer as nat,
            move_ratio: self.move_ratio as nat,
            min_update_distance: self.min_update_distance as nat,
            min_update_limit: self.min_update_limit as nat,
            long_distance: self.long_distance as nat,
        }
    }

    /// The slot identifiers in ring order.
    pub open(crate) spec fn slots(&self) -> Seq<usize> {
        self.ring@
    }

    /// The controller is consistent: its tuning is well formed and its
    /// capacity is a number of the machine.
    pub open spec fn wf(&self) -> bool {
        &&& self.tuning().wf()
        &&& self.tuning().max_pointer < usize::MAX
    }

    /// A controller for a cache of `size` entries, with an empty ring. A
    /// controller for no entry at all is refused.
    pub fn new(size: usize) -> (built: Result<Lru, ConfigError>)
        ensures
            size == 0 <==> built is Err,
            built matches Err(error) ==> error == ConfigError::ZeroCapacity,
            built matches Ok(lru) ==> lru.wf() && lru.tuning() == Tuning::fresh(size as nat)
                && lru.slots() == Seq::<usize>::empty(),
    {
        if size == 0 {
            return Err(ConfigError::ZeroCapacity);
        }
        let mut lru = Lru {
            ring: Vec::new(),
            top: 0,
            max_pointer: size - 1,
            move_ratio: DEFAULT_MOVE,
            min_update_distance: percent(size, DEFAULT_MOVE),
            min_update_limit: 0,
            long_distance: size / 4,
        };
        lru.set_min_update_limit();
        Ok(lru)
    }

    /// Recomputes the limit of the distance threshold from the ratio:
    /// `1 + max_pointer - max_pointer * move_ratio / 100`.
    pub fn set_min_update_limit(&mut self)
        requires
            old(self).tuning().max_pointer < usize::MAX,
            old(self).tuning().move_ratio <= 100,
        ensures
            final(self).tuning() == (Tuning {
                min_update_limit: limit_for(
                    old(self).tuning().max_pointer,
                    old(self).tuning().move_ratio,
                ),
                ..old(self).tuning()
            }),
            final(self).slots() == old(self).slots(),
    {
        self.min_update_limit = 1 + self.max_pointer - percent(self.max_pointer, self.move_ratio);
    }

    /// Circular forward distance from ring position `index` to the top pointer.
    pub fn distance_to_top(&self, index: usize) -> (distance: usize)
        requires
            self.wf(),
            index <= self.tuning().max_pointer,
        ensures
            distance == self.tuning().distance(index as nat),
            distance <= self.tuning().max_pointer,
    {
        if index <= self.top {
            self.top - index
        } else {
            self.max_pointer - (index - self.top)
        }
    }

    /// Adapts the tuning after a promotion from `distance`: raises the
    /// distance threshold by one while it is below its limit, lowers the ratio
    /// when the entry was near and raises it when it was far, and recomputes
    /// the limit from the new ratio.
    pub fn adapt(&mut self, distance: usize)
        requires
            old(self).wf(),
        ensures
            final(self).wf(),
            final(self).tuning() == old(self).tuning().adapted(distance as nat),
            final(self).slots() == old(self).slots(),
    {
        proof {
            lemma_tuning_steps(self.tuning(), distance as nat);
        }
        if self.min_update_distance < self.min_update_limit {
            self.min_update_distance += 1;
        }
        if distance < self.long_distance && self.move_ratio >= 1 {
            self.move_ratio -= 1;
            self.set_min_update_limit();
        } else if self.move_ratio < 99 {
            self.move_ratio += 1;
            self.set_min_update_limit();
        }
    }

    /// Number of ring positions that the controller manages at most.
    pub fn capacity(&self) -> (capacity: usize)
        requires
            self.wf(),
        ensures
            capacity == self.tuning().capacity(),
    {
        self.max_pointer + 1
    }

    /// Percentage of its distance to the top that a promoted entry travels.
    pub fn move_ratio(&self) -> (ratio: usize)
        ensures
            ratio == self.tuning().move_ratio,
    {
        self.move_ratio
    }

    /// Distance from the top up to which a read leaves an entry where it is.
    pub fn min_update_distance(&self) -> (distance: usize)
        ensures
            distance == self.tuning().min_update_distance,
    {
        self.min_update_distance
    }

    /// Bound up to which promotions raise the distance threshold.
    pub fn min_update_limit(&self) -> (limit: usize)
        ensures
            limit == self.tuning().min_update_limit,
    {
        self.min_update_limit
    }
}

} // verus!
