//! The key index: which slot of the entry store holds which key, by the key's
//! code. The index is a `hashbrown::HashMap`; what it holds is known to the
//! verifier only through the contracts below, which are taken on trust.

use vstd::prelude::*;

verus! {

/// A hash map from key codes to slots of the entry store.
#[verifier::external_body]
pub struct SlotIndex {
    table: hashbrown::HashMap<u64, usize>,
}

/// The codes that the index holds, each with its slot.
pub uninterp spec fn slot_index(index: SlotIndex) -> Map<u64, usize>;

impl SlotIndex {
    /// `hashbrown::HashMap::new`: the new map holds no key.
    #[verifier::external_body]
    pub(crate) fn new() -> (index: SlotIndex)
        ensures
            slot_index(index) =~= Map::empty(),
    {
        SlotIndex { table: hashbrown::HashMap::new() }
    }

    /// `hashbrown::HashMap::contains_key`: tells whether the map holds the code.
    #[verifier::external_body]
    pub(crate) fn contains_key(&self, code: u64) -> (found: bool)
        ensures
            found == slot_index(*self).contains_key(code),
    {
        self.table.contains_key(&code)
    }

    /// `hashbrown::HashMap::get`: the slot stored under the code, if the map
    /// holds the code.
    #[verifier::external_body]
    pub(crate) fn get(&self, code: u64) -> (slot: Option<usize>)
        ensures
            slot == (if slot_index(*self).contains_key(code) {
                Some(slot_index(*self)[code])
            } else {
                None
            }),
    {
        self.table.get(&code).copied()
    }

    /// `hashbrown::HashMap::insert`: afterwards the map holds the slot under
    /// the code and is otherwise as before.
    #[verifier::external_body]
    pub(crate) fn insert(&mut self, code: u64, slot: usize)
        ensures
            slot_index(*final(self)) == slot_index(*old(self)).insert(code, slot),
    {
        self.table.insert(code, slot);
    }

    /// `hashbrown::HashMap::remove`: afterwards the map no longer holds the
    /// code and is otherwise as before.
    #[verifier::external_body]
    pub(crate) fn remove(&mut self, code: u64)
        ensures
            slot_index(*final(self)) == slot_index(*old(self)).remove(code),
    {
        self.table.remove(&code);
    }
}

} // verus!
