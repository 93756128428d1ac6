//! Bitmasks over the storages of a group family and over the groups of a
//! storage.

use vstd::prelude::*;

verus! {

/// Largest number of component storages a group family may span.
pub const MAX_GROUP_ARITY: usize = 16;

/// Largest number of groups a component storage may hold.
pub const MAX_GROUP_COUNT: usize = 32;

/// Whether bit `i` of `bits` is set. No bit at or beyond 16 is set.
pub open spec fn bit16(bits: u16, i: nat) -> bool {
    i < 16 && (bits >> (i as u16)) & 1u16 == 1u16
}

/// Whether bit `i` of `bits` is set. No bit at or beyond 32 is set.
pub open spec fn bit32(bits: u32, i: nat) -> bool {
    i < 32 && (bits >> (i as u32)) & 1u32 == 1u32
}

/// The 16-bit mask with exactly the bits `from..to` set.
pub open spec fn range16(from: nat, to: nat) -> u16 {
    if from < to && to <= 16 {
        ((0xffffu16 >> ((16 - (to - from)) as u16)) << (from as u16)) as u16
    } else {
        0u16
    }
}

/// The 32-bit mask with exactly the bits `from..to` set.
pub open spec fn range32(from: nat, to: nat) -> u32 {
    if from < to && to <= 32 {
        ((0xffff_ffffu32 >> ((32 - (to - from)) as u32)) << (from as u32)) as u32
    } else {
        0u32
    }
}

/// The bits of a 16-bit range mask.
pub proof fn lemma_range16(from: nat, to: nat, i: nat)
    requires
        from <= to <= 16,
    ensures
        bit16(range16(from, to), i) <==> from <= i < to,
{
    let f = from as u16;
    let t = to as u16;
    if i < 16 {
        let j = i as u16;
        if from < to {
            assert((((0xffffu16 >> ((16 - (t - f)) as u16)) << f) as u16 >> j) & 1u16 == 1u16 <==> f <= j
                < t) by (bit_vector)
                requires
                    f < t,
                    t <= 16,
                    j < 16,
            ;
        } else {
            assert((0u16 >> j) & 1u16 != 1u16) by (bit_vector);
        }
    }
}

/// The bits of a 32-bit range mask.
pub proof fn lemma_range32(from: nat, to: nat, i: nat)
    requires
        from <= to <= 32,
    ensures
        bit32(range32(from, to), i) <==> from <= i < to,
{
    let f = from as u32;
    let t = to as u32;
    if i < 32 {
        let j = i as u32;
        if from < to {
            assert((((0xffff_ffffu32 >> ((32 - (t - f)) as u32)) << f) as u32 >> j) & 1u32 == 1u32
                <==> f <= j < t) by (bit_vector)
                requires
                    f < t,
                    t <= 32,
                    j < 32,
            ;
        } else {
            assert((0u32 >> j) & 1u32 != 1u32) by (bit_vector);
        }
    }
}

/// The bits of a union, an intersection and a complement of 16-bit masks.
pub proof fn lemma_ops16(a: u16, b: u16, i: nat)
    ensures
        bit16(a | b, i) <==> bit16(a, i) || bit16(b, i),
        bit16(a & b, i) <==> bit16(a, i) && bit16(b, i),
        i < 16 ==> (bit16(!a, i) <==> !bit16(a, i)),
        !bit16(0u16, i),
{
    if i < 16 {
        let j = i as u16;
        assert((((a | b) >> j) & 1u16 == 1u16) <==> (((a >> j) & 1u16 == 1u16) || ((b >> j) & 1u16
            == 1u16))) by (bit_vector);
        assert((((a & b) >> j) & 1u16 == 1u16) <==> (((a >> j) & 1u16 == 1u16) && ((b >> j) & 1u16
            == 1u16))) by (bit_vector);
        assert((((!a) >> j) & 1u16 == 1u16) <==> !((a >> j) & 1u16 == 1u16)) by (bit_vector)
            requires
                j < 16,
        ;
        assert((0u16 >> j) & 1u16 != 1u16) by (bit_vector);
    }
}

/// The bits of a union, an intersection and a complement of 32-bit masks.
pub proof fn lemma_ops32(a: u32, b: u32, i: nat)
    ensures
        bit32(a | b, i) <==> bit32(a, i) || bit32(b, i),
        bit32(a & b, i) <==> bit32(a, i) && bit32(b, i),
        i < 32 ==> (bit32(!a, i) <==> !bit32(a, i)),
        !bit32(0u32, i),
{
    if i < 32 {
        let j = i as u32;
        assert((((a | b) >> j) & 1u32 == 1u32) <==> (((a >> j) & 1u32 == 1u32) || ((b >> j) & 1u32
            == 1u32))) by (bit_vector);
        assert((((a & b) >> j) & 1u32 == 1u32) <==> (((a >> j) & 1u32 == 1u32) && ((b >> j) & 1u32
            == 1u32))) by (bit_vector);
        assert((((!a) >> j) & 1u32 == 1u32) <==> !((a >> j) & 1u32 == 1u32)) by (bit_vector)
            requires
                j < 32,
        ;
        assert((0u32 >> j) & 1u32 != 1u32) by (bit_vector);
    }
}

/// Bitmask over the storages of a group family: bit `i` stands for the
/// family's `i`-th storage.
#[derive(Clone, Copy, PartialEq, Eq, Structural, Debug)]
pub struct StorageMask(pub u16);

impl StorageMask {
    /// Whether the mask holds storage `i`.
    pub open spec fn has(self, i: nat) -> bool {
        bit16(self.0, i)
    }

    /// The mask that holds no storage.
    pub fn none() -> (mask: StorageMask)
        ensures
            mask.0 == 0,
            forall|i: nat| !mask.has(i),
    {
        proof {
            assert forall|i: nat| !bit16(0u16, i) by {
                lemma_ops16(0, 0, i);
            }
        }
        StorageMask(0)
    }

    /// The mask that holds only storage `index`.
    pub fn single(index: usize) -> (mask: StorageMask)
        requires
            index < MAX_GROUP_ARITY,
        ensures
            mask.0 == range16(index as nat, index as nat + 1),
            forall|i: nat| mask.has(i) <==> i == index,
    {
        let shift: u16 = index as u16;
        let bits: u16 = 1u16 << shift;
        proof {
            assert(1u16 << shift == ((0xffffu16 >> ((16 - ((shift + 1) as u16 - shift)) as u16))
                << shift) as u16) by (bit_vector)
                requires
                    shift < 16,
            ;
            assert forall|i: nat| bit16(bits, i) <==> i == index by {
                lemma_range16(index as nat, index as nat + 1, i);
            }
        }
        StorageMask(bits)
    }

    /// The mask that holds the storages `from..to`.
    pub fn from_to(from: usize, to: usize) -> (mask: StorageMask)
        requires
            from <= to <= MAX_GROUP_ARITY,
        ensures
            mask.0 == range16(from as nat, to as nat),
            forall|i: nat| mask.has(i) <==> from <= i < to,
    {
        proof {
            assert forall|i: nat| bit16(range16(from as nat, to as nat), i) <==> from <= i
                < to by {
                lemma_range16(from as nat, to as nat, i);
            }
        }
        if from < to {
            let width: u16 = (to - from) as u16;
            let low: u16 = 0xffffu16 >> (16 - width);
            StorageMask(low << (from as u16))
        } else {
            StorageMask(0)
        }
    }

    /// Returns `true` if the mask holds no storage.
    pub fn is_empty(&self) -> (empty: bool)
        ensures
            empty == (self.0 == 0),
    {
        self.0 == 0
    }

    /// The mask that holds the storages of either mask.
    pub fn union(self, other: StorageMask) -> (mask: StorageMask)
        ensures
            mask.0 == self.0 | other.0,
            forall|i: nat| mask.has(i) <==> self.has(i) || other.has(i),
    {
        proof {
            assert forall|i: nat| bit16(self.0 | other.0, i) <==> bit16(self.0, i) || bit16(
                other.0,
                i,
            ) by {
                lemma_ops16(self.0, other.0, i);
            }
        }
        StorageMask(self.0 | other.0)
    }
}

/// The storages a query includes and those it excludes, within one group
/// family.
#[derive(Clone, Copy, PartialEq, Eq, Structural, Debug)]
pub struct QueryMask {
    /// Storages that must hold the entity.
    pub included: StorageMask,
    /// Storages that must not hold the entity.
    pub excluded: StorageMask,
}

impl QueryMask {
    /// Creates a mask from its two parts.
    pub fn new(included: StorageMask, excluded: StorageMask) -> (mask: QueryMask)
        ensures
            mask.included == included,
            mask.excluded == excluded,
    {
        QueryMask { included, excluded }
    }

    /// The mask of a group over the family's first `arity` storages:
    /// all of them included, none excluded.
    pub fn including(arity: usize) -> (mask: QueryMask)
        requires
            arity <= MAX_GROUP_ARITY,
        ensures
            mask.included.0 == range16(0, arity as nat),
            mask.excluded.0 == 0,
            forall|i: nat| mask.included.has(i) <==> i < arity,
            forall|i: nat| !mask.excluded.has(i),
    {
        QueryMask { included: StorageMask::from_to(0, arity), excluded: StorageMask::none() }
    }

    /// The mask of the entities that sit in the group over the first
    /// `prev_arity` storages but not in the group over the first `arity`:
    /// the first `prev_arity` storages included, the rest up to `arity`
    /// excluded.
    pub fn excluding(prev_arity: usize, arity: usize) -> (mask: QueryMask)
        requires
            prev_arity <= arity <= MAX_GROUP_ARITY,
        ensures
            mask.included.0 == range16(0, prev_arity as nat),
            mask.excluded.0 == range16(prev_arity as nat, arity as nat),
            forall|i: nat| mask.included.has(i) <==> i < prev_arity,
            forall|i: nat| mask.excluded.has(i) <==> prev_arity <= i < arity,
    {
        QueryMask {
            included: StorageMask::from_to(0, prev_arity),
            excluded: StorageMask::from_to(prev_arity, arity),
        }
    }
}

/// Bitmask over the groups of a component storage: bit `i` stands for group
/// `i`.
#[derive(Clone, Copy, PartialEq, Eq, Structural, Debug)]
pub struct GroupMask(pub u32);

impl GroupMask {
    /// Whether the mask holds group `i`.
    pub open spec fn has(self, i: nat) -> bool {
        bit32(self.0, i)
    }

    /// The mask that holds no group.
    pub fn none() -> (mask: GroupMask)
        ensures
            mask.0 == 0,
            forall|i: nat| !mask.has(i),
    {
        proof {
            assert forall|i: nat| !bit32(0u32, i) by {
                lemma_ops32(0, 0, i);
            }
        }
        GroupMask(0)
    }

    /// The mask that holds every group.
    pub fn all() -> (mask: GroupMask)
        ensures
            mask.0 == u32::MAX,
            forall|i: nat| i < 32 ==> mask.has(i),
    {
        proof {
            assert forall|i: nat| i < 32 implies bit32(0xffff_ffffu32, i) by {
                let j = i as u32;
                assert((0xffff_ffffu32 >> j) & 1u32 == 1u32) by (bit_vector)
                    requires
                        j < 32,
                ;
            }
        }
        GroupMask(u32::MAX)
    }

    /// The mask that holds the groups `from..to`.
    pub fn from_to(from: usize, to: usize) -> (mask: GroupMask)
        requires
            from <= to <= MAX_GROUP_COUNT,
        ensures
            mask.0 == range32(from as nat, to as nat),
            forall|i: nat| mask.has(i) <==> from <= i < to,
    {
        proof {
            assert forall|i: nat| bit32(range32(from as nat, to as nat), i) <==> from <= i
                < to by {
                lemma_range32(from as nat, to as nat, i);
            }
        }
        if from < to {
            let width: u32 = (to - from) as u32;
            let low: u32 = 0xffff_ffffu32 >> (32 - width);
            GroupMask(low << (from as u32))
        } else {
            GroupMask(0)
        }
    }

    /// The mask that holds every group but the groups `from..to`.
    pub fn skip_from_to(from: usize, to: usize) -> (mask: GroupMask)
        requires
            from <= to <= MAX_GROUP_COUNT,
        ensures
            mask.0 == !range32(from as nat, to as nat),
            forall|i: nat| i < 32 ==> (mask.has(i) <==> !(from <= i < to)),
    {
        let range = GroupMask::from_to(from, to);
        proof {
            assert forall|i: nat| i < 32 implies (bit32(!range.0, i) <==> !(from <= i < to)) by {
                lemma_ops32(range.0, 0, i);
                assert(range.has(i) <==> from <= i < to);
            }
        }
        GroupMask(!range.0)
    }

    /// Returns `true` if the mask holds group `index`.
    pub fn contains(&self, index: usize) -> (held: bool)
        requires
            index < MAX_GROUP_COUNT,
        ensures
            held == self.has(index as nat),
    {
        let shift: u32 = index as u32;
        (self.0 >> shift) & 1u32 == 1u32
    }

    /// Returns `true` if the mask holds no group.
    pub fn is_empty(&self) -> (empty: bool)
        ensures
            empty == (self.0 == 0),
    {
        self.0 == 0
    }

    /// The mask that holds the groups of either mask.
    pub fn union(self, other: GroupMask) -> (mask: GroupMask)
        ensures
            mask.0 == self.0 | other.0,
            forall|i: nat| mask.has(i) <==> self.has(i) || other.has(i),
    {
        proof {
            assert forall|i: nat| bit32(self.0 | other.0, i) <==> bit32(self.0, i) || bit32(
                other.0,
                i,
            ) by {
                lemma_ops32(self.0, other.0, i);
            }
        }
        GroupMask(self.0 | other.0)
    }

    /// The mask that holds the groups of both masks.
    pub fn intersection(self, other: GroupMask) -> (mask: GroupMask)
        ensures
            mask.0 == self.0 & other.0,
            forall|i: nat| mask.has(i) <==> self.has(i) && other.has(i),
    {
        proof {
            assert forall|i: nat| bit32(self.0 & other.0, i) <==> bit32(self.0, i) && bit32(
                other.0,
                i,
            ) by {
                lemma_ops32(self.0, other.0, i);
            }
        }
        GroupMask(self.0 & other.0)
    }
}

} // verus!
