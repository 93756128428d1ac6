//! Change detection: world ticks, per-slot stamps and the filters that read
//! them.

use vstd::prelude::*;

verus! {

/// The counter used to order insertions and mutations in time.
pub type Ticks = u32;

/// Raised when the world tick can no longer be advanced. The tick has been
/// reset to 1 and every stamp taken before should be treated as stale.
#[derive(Clone, Copy, PartialEq, Eq, Structural, Debug)]
pub struct TickOverflow;

/// The state of a world tick after `tick` is advanced: the next tick, and
/// whether the counter wrapped.
pub open spec fn advanced(tick: Ticks) -> (Ticks, bool) {
    if tick != u32::MAX {
        ((tick + 1) as u32, false)
    } else {
        (1u32, true)
    }
}

/// Advances `tick` by one. When the counter is exhausted it wraps to 1 and
/// the overflow is reported.
pub fn advance(tick: &mut Ticks) -> (result: Result<(), TickOverflow>)
    ensures
        *final(tick) == advanced(*old(tick)).0,
        result is Err <==> advanced(*old(tick)).1,
        result is Err <==> *old(tick) == u32::MAX,
        result is Ok ==> *final(tick) == *old(tick) + 1,
        result is Err ==> *final(tick) == 1,
{
    if *tick != u32::MAX {
        *tick = *tick + 1;
        Ok(())
    } else {
        *tick = 1;
        Err(TickOverflow)
    }
}

/// Advancing strictly increases the tick until the counter is exhausted;
/// the exhausted counter resets to 1 and signals, and the advance after that
/// does not signal again.
pub proof fn lemma_advance(tick: Ticks)
    ensures
        tick < u32::MAX ==> advanced(tick).0 == tick + 1 && !advanced(tick).1,
        tick == u32::MAX ==> advanced(tick).0 == 1 && advanced(tick).1,
        advanced(tick).1 ==> !advanced(advanced(tick).0).1 && advanced(advanced(tick).0).0 == 2,
        advanced(tick).0 >= 1,
{
}

/// The ticks at which a component was added and last changed.
#[derive(Clone, Copy, PartialEq, Eq, Structural, Debug)]
pub struct ChangeTicks {
    /// Tick at which the component was inserted.
    pub added: Ticks,
    /// Tick at which the component was last mutated; 0 if it never was.
    pub changed: Ticks,
}

impl ChangeTicks {
    /// Creates stamps with the given ticks.
    pub fn new(added: Ticks, changed: Ticks) -> (ticks: ChangeTicks)
        ensures
            ticks.added == added,
            ticks.changed == changed,
    {
        ChangeTicks { added, changed }
    }

    /// Stamps of a component inserted at `tick` and never mutated.
    pub fn just_added(tick: Ticks) -> (ticks: ChangeTicks)
        ensures
            ticks.added == tick,
            ticks.changed == 0,
    {
        ChangeTicks { added: tick, changed: 0 }
    }

    /// Stamps of a component mutated at `tick` whose insertion is not
    /// recorded.
    pub fn just_changed(tick: Ticks) -> (ticks: ChangeTicks)
        ensures
            ticks.added == 0,
            ticks.changed == tick,
    {
        ChangeTicks { added: 0, changed: tick }
    }

    /// The same stamps with the mutation tick replaced by `tick`.
    pub open spec fn with_changed(self, tick: Ticks) -> ChangeTicks {
        ChangeTicks { added: self.added, changed: tick }
    }
}

/// Decides from a slot's stamps whether a query produces the slot.
pub trait ChangeTicksFilter {
    /// Whether stamps `ticks` pass the filter for a reader that observes
    /// `world_tick` and last ran at `change_tick`.
    spec fn passes(ticks: ChangeTicks, world_tick: Ticks, change_tick: Ticks) -> bool;

    /// Returns `true` if the stamps pass the filter.
    fn matches(ticks: &ChangeTicks, world_tick: Ticks, change_tick: Ticks) -> (pass: bool)
        ensures
            pass == Self::passes(*ticks, world_tick, change_tick),
    ;
}

/// Filter that lets every slot through.
#[derive(Clone, Copy, Debug)]
pub struct Passthrough;

/// Filter that lets through the slots inserted since the reader last ran.
#[derive(Clone, Copy, Debug)]
pub struct Added;

/// Filter that lets through the slots mutated since the reader last ran.
#[derive(Clone, Copy, Debug)]
pub struct Changed;

impl ChangeTicksFilter for Passthrough {
    open spec fn passes(ticks: ChangeTicks, world_tick: Ticks, change_tick: Ticks) -> bool {
        true
    }

    fn matches(ticks: &ChangeTicks, world_tick: Ticks, change_tick: Ticks) -> (pass: bool) {
        true
    }
}

impl ChangeTicksFilter for Added {
    open spec fn passes(ticks: ChangeTicks, world_tick: Ticks, change_tick: Ticks) -> bool {
        ticks.added >= change_tick
    }

    fn matches(ticks: &ChangeTicks, world_tick: Ticks, change_tick: Ticks) -> (pass: bool) {
        ticks.added >= change_tick
    }
}

impl ChangeTicksFilter for Changed {
    open spec fn passes(ticks: ChangeTicks, world_tick: Ticks, change_tick: Ticks) -> bool {
        ticks.changed >= change_tick
    }

    fn matches(ticks: &ChangeTicks, world_tick: Ticks, change_tick: Ticks) -> (pass: bool) {
        ticks.changed >= change_tick
    }
}

/// Flags kept for a component slot, one bit each.
#[derive(Clone, Copy, PartialEq, Eq, Structural, Debug)]
pub struct ComponentFlags {
    bits: u8,
}

impl ComponentFlags {
    /// The bits of the flags that are set.
    pub closed spec fn view(&self) -> u8 {
        self.bits
    }

    /// Bit of the flag that marks a component as added.
    pub open spec fn added_bit() -> u8 {
        1u8
    }

    /// Bit of the flag that marks a component as changed.
    pub open spec fn changed_bit() -> u8 {
        2u8
    }

    /// No flag set.
    pub fn empty() -> (flags: ComponentFlags)
        ensures
            flags@ == 0,
    {
        ComponentFlags { bits: 0 }
    }

    /// The flag that marks a component as added.
    pub fn added() -> (flags: ComponentFlags)
        ensures
            flags@ == Self::added_bit(),
    {
        ComponentFlags { bits: 1 }
    }

    /// The flag that marks a component as changed.
    pub fn changed() -> (flags: ComponentFlags)
        ensures
            flags@ == Self::changed_bit(),
    {
        ComponentFlags { bits: 2 }
    }

    /// Returns the raw bits.
    pub fn bits(&self) -> (bits: u8)
        ensures
            bits == self@,
    {
        self.bits
    }

    /// Returns `true` if no flag is set.
    pub fn is_empty(&self) -> (empty: bool)
        ensures
            empty == (self@ == 0),
    {
        self.bits == 0
    }

    /// Returns `true` if every flag of `other` is set in `self`.
    pub fn contains(&self, other: ComponentFlags) -> (all: bool)
        ensures
            all == (self@ & other@ == other@),
    {
        self.bits & other.bits == other.bits
    }

    /// Sets every flag of `other`.
    pub fn insert(&mut self, other: ComponentFlags)
        ensures
            final(self)@ == old(self)@ | other@,
    {
        self.bits = self.bits | other.bits;
    }

    /// Clears every flag of `other`.
    pub fn remove(&mut self, other: ComponentFlags)
        ensures
            final(self)@ == old(self)@ & !other@,
    {
        self.bits = self.bits & !other.bits;
    }
}

/// Mutable access to a component that records the access in the slot's
/// flags.
pub struct ComponentRefMut<'a, T> {
    /// The component.
    pub data: &'a mut T,
    /// The flags of the component's slot.
    pub flags: &'a mut ComponentFlags,
}

impl<'a, T> ComponentRefMut<'a, T> {
    /// Wraps `data` and the `flags` of its slot.
    pub fn new(data: &'a mut T, flags: &'a mut ComponentFlags) -> (r: Self)
        ensures
            *r.data == *old(data),
            *r.flags == *old(flags),
            *final(r.data) == *final(data),
            *final(r.flags) == *final(flags),
    {
        ComponentRefMut { data, flags }
    }

    /// Reads the component. The flags are left alone.
    pub fn get(&self) -> (value: &T)
        ensures
            *value == *old(self.data),
    {
        &*self.data
    }

    /// Hands out the component for mutation and marks the slot as changed,
    /// whether or not the caller then writes to it.
    pub fn get_mut(&mut self) -> (value: &mut T)
        ensures
            *value == *old(self).data,
            *final(self).data == *final(value),
            final(self).flags@ == old(self).flags@ | ComponentFlags::changed_bit(),
            *final(final(self).data) == *final(old(self).data),
            *final(final(self).flags) == *final(old(self).flags),
    {
        self.flags.insert(ComponentFlags::changed());
        &mut *self.data
    }
}

} // verus!
