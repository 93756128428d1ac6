//! Sparse vector mapping entity indexes to dense positions.

use vstd::prelude::*;
use crate::entity::{Entity, Version};

verus! {

/// What a sparse vec remembers for one entity index: the dense position of
/// the entity and the version it had when it was stored.
#[derive(Clone, Copy, PartialEq, Eq, Structural, Debug)]
pub struct DenseEntity {
    /// Position of the entity in the dense arrays.
    pub dense: usize,
    /// Version of the entity stored at that position.
    pub version: Version,
}

/// Maps sparse entity indexes to dense positions, remembering the version of
/// the entity each slot was written for.
#[derive(Debug)]
pub struct SparseVec {
    slots: Vec<Option<DenseEntity>>,
}

impl SparseVec {
    /// The occupied slots, keyed by sparse index.
    pub closed spec fn view(&self) -> Map<u32, DenseEntity> {
        Map::new(
            |index: u32| index < self.slots@.len() && self.slots@[index as int] is Some,
            |index: u32| self.slots@[index as int]->0,
        )
    }

    /// The dense position recorded for `index`, provided the slot is occupied
    /// and was written for `version`.
    pub open spec fn lookup(&self, index: u32, version: Version) -> Option<usize> {
        if self@.contains_key(index) && self@[index].version == version {
            Some(self@[index].dense)
        } else {
            None
        }
    }

    /// Creates a sparse vec with no occupied slots.
    pub fn new() -> (sparse: SparseVec)
        ensures
            sparse@ == Map::<u32, DenseEntity>::empty(),
    {
        let sparse = SparseVec { slots: Vec::new() };
        assert(sparse@ =~= Map::<u32, DenseEntity>::empty());
        sparse
    }

    /// Returns the slot stored at `index`, whatever its version.
    pub fn get_slot(&self, index: u32) -> (slot: Option<DenseEntity>)
        ensures
            slot == if self@.contains_key(index) {
                Some(self@[index])
            } else {
                None::<DenseEntity>
            },
    {
        let i: usize = index as usize;
        if i < self.slots.len() {
            self.slots[i]
        } else {
            None
        }
    }

    /// Returns the dense position stored at `index` only if the slot was
    /// written for `version`. A slot written for another version reads as
    /// absent.
    pub fn get(&self, index: u32, version: Version) -> (dense: Option<usize>)
        ensures
            dense == self.lookup(index, version),
    {
        match self.get_slot(index) {
            Some(slot) => {
                if slot.version == version {
                    Some(slot.dense)
                } else {
                    None
                }
            },
            None => None,
        }
    }

    /// Returns `true` if the slot at the entity's index was written for the
    /// entity's version.
    pub fn contains(&self, entity: Entity) -> (present: bool)
        ensures
            present == self.lookup(entity.index, entity.version) is Some,
    {
        self.get(entity.index, entity.version).is_some()
    }

    /// Writes the slot at `index`, growing the vec as needed. Any previous
    /// content of the slot is overwritten; no other slot changes.
    pub fn insert(&mut self, index: u32, dense: usize, version: Version)
        ensures
            final(self)@ == old(self)@.insert(index, (DenseEntity { dense, version })),
    {
        let i: usize = index as usize;
        while self.slots.len() <= i
            invariant
                i == index,
                self@ == old(self)@,
            decreases i + 1 - self.slots.len(),
        {
            let ghost before = self@;
            self.slots.push(None);
            assert(self@ =~= before);
        }
        self.slots[i] = Some(DenseEntity { dense, version });
        assert(self@ =~= old(self)@.insert(index, (DenseEntity { dense, version })));
    }

    /// Clears the slot at `index` and returns the dense position it held, if
    /// it was occupied. No other slot changes.
    pub fn remove(&mut self, index: u32) -> (dense: Option<usize>)
        ensures
            final(self)@ == old(self)@.remove(index),
            dense == if old(self)@.contains_key(index) {
                Some(old(self)@[index].dense)
            } else {
                None::<usize>
            },
    {
        let i: usize = index as usize;
        if i < self.slots.len() {
            let slot: Option<DenseEntity> = self.slots[i];
            self.slots[i] = None;
            assert(self@ =~= old(self)@.remove(index));
            match slot {
                Some(s) => Some(s.dense),
                None => None,
            }
        } else {
            assert(self@ =~= old(self)@.remove(index));
            None
        }
    }

    /// Clears every slot.
    pub fn clear(&mut self)
        ensures
            final(self)@ == Map::<u32, DenseEntity>::empty(),
    {
        self.slots.clear();
        assert(self@ =~= Map::<u32, DenseEntity>::empty());
    }
}

} // verus!
