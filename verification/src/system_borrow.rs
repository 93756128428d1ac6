//! What a system borrows while it runs, and which borrows stand in each
//! other's way.

use vstd::prelude::*;
use crate::layout::ComponentId;

verus! {

/// Identifies a resource type.
#[derive(Clone, Copy, PartialEq, Eq, Structural, PartialOrd, Ord, Hash, Debug)]
pub struct ResourceId(pub u64);

/// Type of asset borrowed by systems during execution.
#[derive(Clone, Copy, PartialEq, Eq, Structural, PartialOrd, Ord, Debug)]
pub enum SystemBorrow {
    /// View over all entities.
    Entities,
    /// View over all components of a type.
    Comp(ComponentId),
    /// Mutable view over all components of a type.
    CompMut(ComponentId),
    /// View over a resource.
    Res(ResourceId),
    /// Mutable view over a resource.
    ResMut(ResourceId),
}

impl SystemBorrow {
    /// Whether two borrows cannot be held at once: they name the same
    /// component type or the same resource, and one of them is mutable.
    pub open spec fn conflicts(self, other: Self) -> bool {
        match (self, other) {
            (SystemBorrow::Comp(a), SystemBorrow::CompMut(b)) => a == b,
            (SystemBorrow::CompMut(a), SystemBorrow::Comp(b)) => a == b,
            (SystemBorrow::CompMut(a), SystemBorrow::CompMut(b)) => a == b,
            (SystemBorrow::Res(a), SystemBorrow::ResMut(b)) => a == b,
            (SystemBorrow::ResMut(a), SystemBorrow::Res(b)) => a == b,
            (SystemBorrow::ResMut(a), SystemBorrow::ResMut(b)) => a == b,
            _ => false,
        }
    }

    /// Returns `true` if the borrows prevent two systems from running in
    /// parallel.
    pub fn conflicts_with(&self, other: &Self) -> (conflict: bool)
        ensures
            conflict == self.conflicts(*other),
    {
        match (self, other) {
            (SystemBorrow::Comp(a), SystemBorrow::CompMut(b)) => a.0 == b.0,
            (SystemBorrow::CompMut(a), SystemBorrow::Comp(b)) => a.0 == b.0,
            (SystemBorrow::CompMut(a), SystemBorrow::CompMut(b)) => a.0 == b.0,
            (SystemBorrow::Res(a), SystemBorrow::ResMut(b)) => a.0 == b.0,
            (SystemBorrow::ResMut(a), SystemBorrow::Res(b)) => a.0 == b.0,
            (SystemBorrow::ResMut(a), SystemBorrow::ResMut(b)) => a.0 == b.0,
            _ => false,
        }
    }

    /// A conflict does not depend on the order of the two borrows, and
    /// shared borrows never conflict.
    pub proof fn lemma_conflicts(self, other: Self)
        ensures
            self.conflicts(other) == other.conflicts(self),
            self is Comp && other is Comp ==> !self.conflicts(other),
            self is Res && other is Res ==> !self.conflicts(other),
            self is Entities ==> !self.conflicts(other),
    {
    }
}

/// Raised when an asset is borrowed in a way that a borrow already held
/// forbids.
#[derive(Clone, Copy, PartialEq, Eq, Structural, Debug)]
pub struct BorrowConflict {
    /// The borrow that stands in the way.
    pub held: SystemBorrow,
    /// The borrow that was refused.
    pub wanted: SystemBorrow,
}

/// Returns the first of `held` that conflicts with `wanted`, if any does:
/// the borrow that stands in the way of acquiring `wanted`.
pub fn find_conflict(held: &Vec<SystemBorrow>, wanted: SystemBorrow) -> (found: Option<usize>)
    ensures
        match found {
            Some(i) => i < held.len() && held[i as int].conflicts(wanted) && forall|k: int|
                0 <= k < i ==> !(#[trigger] held[k]).conflicts(wanted),
            None => forall|k: int| 0 <= k < held.len() ==> !(#[trigger] held[k]).conflicts(wanted),
        },
{
    let mut i: usize = 0;
    while i < held.len()
        invariant
            i <= held.len(),
            forall|k: int| 0 <= k < i ==> !(#[trigger] held[k]).conflicts(wanted),
        decreases held.len() - i,
    {
        if held[i].conflicts_with(&wanted) {
            return Some(i);
        }
        i = i + 1;
    }
    None
}

/// Acquires `wanted` on top of the borrows `held`: the borrow is recorded if
/// none of those held conflicts with it, and refused, with nothing changed,
/// otherwise.
pub fn acquire(held: &mut Vec<SystemBorrow>, wanted: SystemBorrow) -> (result: Result<
    (),
    BorrowConflict,
>)
    ensures
        match result {
            Ok(_) => final(held)@ == old(held)@.push(wanted) && forall|k: int|
                0 <= k < old(held).len() ==> !(#[trigger] old(held)[k]).conflicts(wanted),
            Err(conflict) => final(held)@ == old(held)@ && conflict.wanted == wanted
                && conflict.held.conflicts(wanted) && old(held)@.contains(conflict.held),
        },
{
    match find_conflict(held, wanted) {
        Some(i) => {
            let blocking: SystemBorrow = held[i];
            Err(BorrowConflict { held: blocking, wanted })
        },
        None => {
            held.push(wanted);
            Ok(())
        },
    }
}

} // verus!
