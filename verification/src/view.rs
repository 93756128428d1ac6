//! Component views: read access to the sparse set of one component type,
//! together with what a query needs to know about the type's group.

use vstd::prelude::*;
use crate::entity::Entity;
use crate::group::Group;
use crate::group_info::GroupInfo;
use crate::registry::ComponentMetadata;
use crate::sparse_set::{ComponentSparseSet, SparseSetView};
use crate::sparse_vec::SparseVec;
use crate::ticks::{ChangeTicks, Ticks};

verus! {

/// Whether `info` is the group info of a view over a component type with
/// the given metadata: none for a type that takes part in no group; else the
/// type's family, the first group that holds the type, and the type's
/// storage bit.
pub open spec fn info_agrees(
    info: Option<GroupInfo>,
    metadata: ComponentMetadata,
    groups: Seq<Group>,
) -> bool {
    match info {
        None => metadata.storage_mask.0 == 0 || metadata.group_end <= metadata.group_start,
        Some(found) => {
            &&& metadata.storage_mask.0 != 0
            &&& metadata.group_end > metadata.group_start
            &&& found.groups@ == groups
            &&& found.family == metadata.group_start
            &&& found.group_offset == metadata.group_end - 1 - metadata.group_start
            &&& found.storage_mask == metadata.storage_mask
        },
    }
}

/// Data of one view handed to iteration: the components and their change
/// ticks, in dense order.
#[derive(Debug)]
pub struct ComponentViewData<'a, T> {
    /// The components.
    pub components: &'a [T],
    /// The change ticks of the components.
    pub ticks: &'a [ChangeTicks],
}

impl<'a, T> ComponentViewData<'a, T> {
    /// Pairs components with their change ticks.
    pub fn new(components: &'a [T], ticks: &'a [ChangeTicks]) -> (data: Self)
        ensures
            data.components@ == components@,
            data.ticks@ == ticks@,
    {
        ComponentViewData { components, ticks }
    }
}

/// Shared view over all components of one type.
#[derive(Debug)]
pub struct Comp<'a, T> {
    /// The sparse set of the component type.
    pub set: &'a ComponentSparseSet<T>,
    /// The group family of the component type, if it has one.
    pub group_info: Option<GroupInfo<'a>>,
    /// The world tick at the time of the borrow.
    pub world_tick: Ticks,
    /// The tick at which the reader last ran.
    pub change_tick: Ticks,
}

impl<'a, T> Comp<'a, T> {
    /// The content of the viewed sparse set.
    pub open spec fn view(&self) -> SparseSetView<T> {
        self.set@
    }

    /// A view is valid if its sparse set is.
    pub open spec fn wf(&self) -> bool {
        self.set.wf()
    }

    /// Creates a view.
    pub fn new(
        set: &'a ComponentSparseSet<T>,
        group_info: Option<GroupInfo<'a>>,
        world_tick: Ticks,
        change_tick: Ticks,
    ) -> (view: Self)
        ensures
            view.set == set,
            view.group_info == group_info,
            view.world_tick == world_tick,
            view.change_tick == change_tick,
    {
        Comp { set, group_info, world_tick, change_tick }
    }

    /// Returns the number of components in the view.
    pub fn len(&self) -> (len: usize)
        requires
            self.wf(),
        ensures
            len == self@.len(),
    {
        self.set.len()
    }

    /// Returns `true` if the view holds a component for `entity`.
    pub fn contains(&self, entity: Entity) -> (present: bool)
        requires
            self.wf(),
        ensures
            present == self@.contains(entity),
    {
        self.set.contains(entity)
    }

    /// Returns the dense position of `entity` in the view, if the view holds
    /// a component for it.
    pub fn get_index(&self, entity: Entity) -> (index: Option<usize>)
        requires
            self.wf(),
        ensures
            index == self@.index_of(entity),
            index matches Some(i) ==> i < self@.len() && self@.entities[i as int] == entity,
    {
        self.set.get_index(entity)
    }

    /// Returns the component of `entity`, if the view holds one.
    pub fn get(&self, entity: Entity) -> (component: Option<&'a T>)
        requires
            self.wf(),
        ensures
            match component {
                Some(c) => self@.component(entity) == Some(*c),
                None => self@.component(entity) is None,
            },
    {
        self.set.get(entity)
    }

    /// Returns the change ticks of the component of `entity`, if the view
    /// holds one.
    pub fn get_ticks(&self, entity: Entity) -> (ticks: Option<ChangeTicks>)
        requires
            self.wf(),
        ensures
            ticks == match self@.index_of(entity) {
                Some(i) => Some(self@.ticks[i as int]),
                None => None::<ChangeTicks>,
            },
    {
        self.set.get_ticks(entity)
    }

    /// Returns the group info of the view.
    pub fn group_info(&self) -> (info: Option<GroupInfo<'a>>)
        ensures
            info == self.group_info,
    {
        self.group_info
    }

    /// Returns the world tick and the tick at which the reader last ran.
    pub fn change_detection_ticks(&self) -> (ticks: (Ticks, Ticks))
        ensures
            ticks == (self.world_tick, self.change_tick),
    {
        (self.world_tick, self.change_tick)
    }

    /// Splits the view into its entities, its sparse vec, and its components
    /// with their change ticks.
    pub fn split(&self) -> (parts: (&'a [Entity], &'a SparseVec, ComponentViewData<'a, T>))
        ensures
            parts.0@ == self@.entities,
            parts.1@ == self@.sparse,
            parts.2.components@ == self@.data,
            parts.2.ticks@ == self@.ticks,
    {
        let (entities, sparse, components, ticks) = self.set.split();
        (entities, sparse, ComponentViewData::new(components, ticks))
    }
}

/// A view whose entities and components can be taken as slices.
pub trait SliceComponent<'a, T> {
    /// The content of the view.
    spec fn sliced(&self) -> SparseSetView<T>;

    /// Returns the entities of the view, in dense order.
    fn entities(&self) -> (entities: &'a [Entity])
        ensures
            entities@ == self.sliced().entities,
    ;

    /// Returns the components of the view, in dense order.
    fn components(&self) -> (components: &'a [T])
        ensures
            components@ == self.sliced().data,
    ;
}

impl<'a, T> SliceComponent<'a, T> for Comp<'a, T> {
    open spec fn sliced(&self) -> SparseSetView<T> {
        self@
    }

    fn entities(&self) -> (entities: &'a [Entity]) {
        self.set.entities()
    }

    fn components(&self) -> (components: &'a [T]) {
        self.set.data()
    }
}

/// Exclusive view over all components of one type. Components can be read
/// and handed out for mutation; which entities the sparse set holds, and
/// where, cannot be changed through the view.
pub struct CompMut<'a, T> {
    /// The sparse set of the component type.
    pub set: &'a mut ComponentSparseSet<T>,
    /// The group family of the component type, if it has one.
    pub group_info: Option<GroupInfo<'a>>,
    /// The world tick at the time of the borrow.
    pub world_tick: Ticks,
    /// The tick at which the reader last ran.
    pub change_tick: Ticks,
}

impl<'a, T> CompMut<'a, T> {
    /// Returns the number of components in the view.
    pub fn len(&self) -> (len: usize)
        requires
            old(self.set).wf(),
        ensures
            len == old(self.set)@.len(),
    {
        self.set.len()
    }

    /// Returns `true` if the view holds a component for `entity`.
    pub fn contains(&self, entity: Entity) -> (present: bool)
        requires
            old(self.set).wf(),
        ensures
            present == old(self.set)@.contains(entity),
    {
        self.set.contains(entity)
    }

    /// Returns the component of `entity`, if the view holds one.
    pub fn get(&self, entity: Entity) -> (component: Option<&T>)
        requires
            old(self.set).wf(),
        ensures
            match component {
                Some(c) => old(self.set)@.component(entity) == Some(*c),
                None => old(self.set)@.component(entity) is None,
            },
    {
        self.set.get(entity)
    }

    /// Hands out the component of `entity` for mutation and stamps its
    /// `changed` tick with the world tick of the view, whether or not the
    /// caller then writes. Nothing changes if the view holds no component for
    /// the entity.
    pub fn get_mut(&mut self, entity: Entity) -> (component: Option<&mut T>)
        requires
            old(self).set.wf(),
        ensures
            final(self).set.wf(),
            final(self).group_info == old(self).group_info,
            final(self).world_tick == old(self).world_tick,
            final(self).change_tick == old(self).change_tick,
            final(self).set@.entities == old(self).set@.entities,
            final(self).set@.sparse == old(self).set@.sparse,
            match component {
                Some(c) => {
                    &&& old(self).set@.component(entity) == Some(*c)
                    &&& final(self).set@ == old(self).set@.mutate(
                        entity,
                        *final(c),
                        old(self).world_tick,
                    )
                },
                None => {
                    &&& old(self).set@.component(entity) is None
                    &&& final(self).set@ == old(self).set@
                },
            },
            *final(final(self).set) == *final(old(self).set),
    {
        let tick: Ticks = self.world_tick;
        self.set.get_mut(entity, tick)
    }
}

} // verus!
