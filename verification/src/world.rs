//! The world: entities, their components, and the tick that orders
//! changes in time.

use vstd::prelude::*;
use crate::component_storage::{
    delete_all_result, insert_result, remove_result, removed, storage_of, ungroup_result,
    ComponentStorage,
};
use crate::entity::Entity;
use crate::entity_storage::EntityStorage;
use crate::layout::{ComponentId, GroupLayout};
use crate::group::{Group, PassState};
use crate::masks::GroupMask;
use crate::registry::ComponentMetadata;
use crate::sparse_set::SparseSetView;
use crate::ticks::{advance, advanced, TickOverflow, Ticks};
use crate::view::{info_agrees, Comp, CompMut};
use crate::component_storage::metas_of;
use crate::iter::ComponentQuery;
use crate::window::{drawn, window_holds};

verus! {

/// Uniquely identifies a world during the execution of the program, as long
/// as every world is given a different number.
#[derive(Clone, Copy, PartialEq, Eq, Structural, PartialOrd, Ord, Hash, Debug)]
pub struct WorldId {
    value: u64,
}

impl WorldId {
    /// The number of the world.
    pub closed spec fn view(self) -> u64 {
        self.value
    }

    /// Creates the identifier numbered `value`. Zero identifies no world.
    pub fn new(value: u64) -> (id: Option<WorldId>)
        ensures
            value == 0 <==> id is None,
            id matches Some(found) ==> found@ == value,
    {
        if value == 0 {
            None
        } else {
            Some(WorldId { value })
        }
    }

    /// Returns the number of the world.
    pub fn get(&self) -> (value: u64)
        ensures
            value == self@,
    {
        self.value
    }
}

/// Storages and groups after the first `count` of the `batches` were
/// inserted, the components of batch `i` for the entity `created[i]`, each
/// followed by its group pass.
pub open spec fn extended<T>(
    sets: Seq<SparseSetView<T>>,
    groups: Seq<Group>,
    registry: Map<u64, ComponentMetadata>,
    created: Seq<Entity>,
    batches: Seq<Vec<(ComponentId, T)>>,
    tick: Ticks,
    count: nat,
) -> PassState<T>
    decreases count,
{
    if count == 0 {
        PassState { sets, groups, mask: GroupMask(0) }
    } else {
        let before = extended(sets, groups, registry, created, batches, tick, (count - 1) as nat);
        insert_result(
            before.sets,
            before.groups,
            registry,
            created[count - 1],
            batches[count - 1]@,
            tick,
        )
    }
}

/// What the first `count` batches come to depends on the first `count`
/// entities only.
pub proof fn lemma_extended_prefix<T>(
    sets: Seq<SparseSetView<T>>,
    groups: Seq<Group>,
    registry: Map<u64, ComponentMetadata>,
    created: Seq<Entity>,
    longer: Seq<Entity>,
    batches: Seq<Vec<(ComponentId, T)>>,
    tick: Ticks,
    count: nat,
)
    requires
        count <= created.len() <= longer.len(),
        forall|i: int| 0 <= i < created.len() ==> created[i] == longer[i],
    ensures
        extended(sets, groups, registry, created, batches, tick, count) == extended(
            sets,
            groups,
            registry,
            longer,
            batches,
            tick,
            count,
        ),
    decreases count,
{
    if count > 0 {
        lemma_extended_prefix(
            sets,
            groups,
            registry,
            created,
            longer,
            batches,
            tick,
            (count - 1) as nat,
        );
    }
}

/// Raised when an operation names an entity that is not alive.
#[derive(Clone, Copy, PartialEq, Eq, Structural, Debug)]
pub struct NoSuchEntity;

/// Container for entities and their components.
pub struct World<T> {
    id: WorldId,
    tick: Ticks,
    entities: EntityStorage,
    storages: ComponentStorage<T>,
}

impl<T> World<T> {
    /// The identifier of the world.
    pub closed spec fn spec_id(&self) -> WorldId {
        self.id
    }

    /// The current tick.
    pub closed spec fn spec_tick(&self) -> Ticks {
        self.tick
    }

    /// The entity storage.
    pub closed spec fn entity_store(&self) -> EntityStorage {
        self.entities
    }

    /// The component storage.
    pub closed spec fn storage(&self) -> ComponentStorage<T> {
        self.storages
    }

    /// Whether every entity that a sparse set holds is alive.
    pub open spec fn tidy(&self) -> bool {
        forall|j: int, entity: Entity|
            0 <= j < self.storage().sets().len() && #[trigger] self.storage().sets()[j].contains(
                entity,
            ) ==> self.entity_store().holds(entity)
    }

    /// The invariant of the world: both storages are valid, the tick is not
    /// zero, and only entities that are alive have components.
    pub open spec fn wf(&self) -> bool {
        &&& self.entity_store().wf()
        &&& self.storage().wf()
        &&& self.spec_tick() >= 1
        &&& self.tidy()
    }

    /// In a valid world a sparse set never refuses a component for an entity
    /// that is alive on account of its version: if the index of the entity is
    /// taken in a sparse set, it is taken by the entity itself.
    pub proof fn lemma_alive_index(&self, entity: Entity, j: int)
        requires
            self.wf(),
            self.entity_store().holds(entity),
            0 <= j < self.storage().sets().len(),
            self.storage().sets()[j].occupied(entity.index),
        ensures
            self.storage().sets()[j].contains(entity),
    {
        let set = self.storage().sets()[j];
        assert(set.wf());
        assert(set.sparse.contains_key(entity.index));
        let d = set.sparse[entity.index].dense as int;
        let holder = set.entities[d];
        set.lemma_index_of(holder, d);
        assert(set.contains(holder));
        assert(self.entity_store().holds(holder));
        self.entity_store().lemma_unique_index(holder, entity);
    }

    /// Creates an empty world with no group, at tick 1.
    pub fn new(id: WorldId) -> (world: Self)
        ensures
            world.wf(),
            world.spec_id() == id,
            world.spec_tick() == 1,
            world.entity_store()@.len() == 0,
            world.storage().sets().len() == 0,
            world.storage().spec_groups().len() == 0,
    {
        World { id, tick: 1, entities: EntityStorage::new(), storages: ComponentStorage::empty() }
    }

    /// Creates an empty world with the storages arranged as described by
    /// `layout`, at tick 1.
    pub fn with_layout(id: WorldId, layout: &GroupLayout) -> (world: Self)
        requires
            layout.wf(),
        ensures
            world.wf(),
            world.spec_id() == id,
            world.spec_tick() == 1,
            world.entity_store()@.len() == 0,
            world.storage().sets().len() == crate::layout::storage_count(
                layout.spec_families(),
                layout.spec_families().len(),
            ),
            world.storage().spec_groups().len() == crate::layout::group_count(
                layout.spec_families(),
                layout.spec_families().len(),
            ),
    {
        World {
            id,
            tick: 1,
            entities: EntityStorage::new(),
            storages: ComponentStorage::new(layout),
        }
    }

    /// Arranges the storages as described by `layout`. This is possible only
    /// while no component type is registered: the call returns `false`, and
    /// changes nothing, otherwise.
    pub fn set_layout(&mut self, layout: &GroupLayout) -> (arranged: bool)
        requires
            old(self).wf(),
            layout.wf(),
        ensures
            final(self).wf(),
            final(self).spec_id() == old(self).spec_id(),
            final(self).spec_tick() == old(self).spec_tick(),
            final(self).entity_store() == old(self).entity_store(),
            arranged == (old(self).storage().sets().len() == 0),
            !arranged ==> final(self).storage() == old(self).storage(),
            arranged ==> final(self).storage().sets().len() == crate::layout::storage_count(
                layout.spec_families(),
                layout.spec_families().len(),
            ) && final(self).storage().spec_groups().len() == crate::layout::group_count(
                layout.spec_families(),
                layout.spec_families().len(),
            ),
    {
        if self.storages.storage_count() != 0 {
            return false;
        }
        self.storages = ComponentStorage::new(layout);
        true
    }

    /// Creates a sparse set for the component type `id` if the type is not
    /// registered yet. Returns `true` if it was registered by this call.
    pub fn register(&mut self, id: ComponentId) -> (added: bool)
        requires
            old(self).wf(),
        ensures
            final(self).wf(),
            final(self).spec_id() == old(self).spec_id(),
            final(self).spec_tick() == old(self).spec_tick(),
            final(self).entity_store() == old(self).entity_store(),
            added == !old(self).storage().registry().contains_key(id.0),
            final(self).storage().registry().contains_key(id.0),
            final(self).storage().spec_groups() == old(self).storage().spec_groups(),
            !added ==> final(self).storage().sets() == old(self).storage().sets()
                && final(self).storage().registry() == old(self).storage().registry(),
            added ==> final(self).storage().sets() == old(self).storage().sets().push(
                SparseSetView::<T>::empty(),
            ),
    {
        self.storages.register(id)
    }

    /// Returns `true` if the component type `id` is registered.
    pub fn is_registered(&self, id: ComponentId) -> (registered: bool)
        ensures
            registered == self.storage().registry().contains_key(id.0),
    {
        self.storages.is_registered(id)
    }

    /// Returns `true` if `entity` exists in the world.
    pub fn contains(&self, entity: Entity) -> (alive: bool)
        requires
            self.wf(),
        ensures
            alive == self.entity_store().holds(entity),
    {
        self.entities.contains(entity)
    }

    /// Returns all the entities in the world as a slice.
    pub fn entities(&self) -> (entities: &[Entity])
        ensures
            entities@ == self.entity_store()@,
    {
        self.entities.as_slice()
    }

    /// Returns the identifier of the world.
    pub fn id(&self) -> (id: WorldId)
        ensures
            id == self.spec_id(),
    {
        self.id
    }

    /// Returns the current world tick used for change detection.
    pub fn tick(&self) -> (tick: Ticks)
        ensures
            tick == self.spec_tick(),
    {
        self.tick
    }

    /// Returns the entity storage.
    pub fn entity_storage(&self) -> (entities: &EntityStorage)
        ensures
            *entities == self.entity_store(),
    {
        &self.entities
    }

    /// Returns the component storage.
    pub fn component_storages(&self) -> (storages: &ComponentStorage<T>)
        ensures
            *storages == self.storage(),
    {
        &self.storages
    }

    /// Makes the entities that were reserved alive.
    pub fn maintain(&mut self)
        requires
            old(self).wf(),
            old(self).entity_store()@.len() + old(self).entity_store().reserved().len()
                <= usize::MAX,
        ensures
            final(self).wf(),
            final(self).spec_id() == old(self).spec_id(),
            final(self).spec_tick() == old(self).spec_tick(),
            final(self).storage() == old(self).storage(),
            final(self).entity_store().reserved().len() == 0,
            final(self).entity_store()@ == old(self).entity_store()@
                + old(self).entity_store().reserved().reverse(),
    {
        let ghost before = self.entities;
        self.entities.maintain();
        proof {
            assert forall|j: int, entity: Entity|
                0 <= j < self.storage().sets().len() && #[trigger] self.storage().sets()[j].contains(
                    entity,
                ) implies self.entity_store().holds(entity) by {
                before.lemma_holds(entity);
                self.entities.lemma_holds(entity);
                let i = choose|i: int| 0 <= i < before@.len() && before@[i] == entity;
                assert(self.entities@[i] == entity);
            }
        }
    }

    /// Advances the current world tick. When the tick is exhausted it wraps
    /// to 1 and the overflow is reported: every stamp taken before should
    /// then be treated as stale.
    pub fn advance_ticks(&mut self) -> (result: Result<(), TickOverflow>)
        requires
            old(self).wf(),
        ensures
            final(self).wf(),
            final(self).spec_id() == old(self).spec_id(),
            final(self).entity_store() == old(self).entity_store(),
            final(self).storage() == old(self).storage(),
            final(self).spec_tick() == advanced(old(self).spec_tick()).0,
            result is Err <==> old(self).spec_tick() == u32::MAX,
            result is Ok ==> final(self).spec_tick() == old(self).spec_tick() + 1,
            result is Err ==> final(self).spec_tick() == 1,
    {
        advance(&mut self.tick)
    }

    /// Borrows a view over the components of type `id`, for a reader that
    /// last ran one tick ago.
    ///
    /// The type must be registered.
    pub fn fetch(&self, id: ComponentId) -> (view: Comp<'_, T>)
        requires
            self.wf(),
            self.storage().registry().contains_key(id.0),
        ensures
            view.wf(),
            view@ == self.storage().sets()[storage_of(self.storage().registry(), id)],
            info_agrees(
                view.group_info,
                self.storage().registry()[id.0],
                self.storage().spec_groups(),
            ),
            view.group_info matches Some(info) ==> info.wf(),
            view.world_tick == self.spec_tick(),
            view.change_tick == self.spec_tick() - 1,
    {
        self.storages.borrow(id, self.tick, self.tick - 1)
    }

    /// Borrows a view over the components of type `id`, for a reader that
    /// last ran at `change_tick`.
    ///
    /// The type must be registered.
    pub fn borrow(&self, id: ComponentId, change_tick: Ticks) -> (view: Comp<'_, T>)
        requires
            self.wf(),
            self.storage().registry().contains_key(id.0),
        ensures
            view.wf(),
            view@ == self.storage().sets()[storage_of(self.storage().registry(), id)],
            info_agrees(
                view.group_info,
                self.storage().registry()[id.0],
                self.storage().spec_groups(),
            ),
            view.group_info matches Some(info) ==> info.wf(),
            view.world_tick == self.spec_tick(),
            view.change_tick == change_tick,
    {
        self.storages.borrow(id, self.tick, change_tick)
    }

    /// Whether every one of the `components` has a registered type.
    pub open spec fn all_known(&self, components: Seq<(ComponentId, T)>) -> bool {
        forall|i: int|
            0 <= i < components.len() ==> self.storage().registry().contains_key(
                (#[trigger] components[i]).0.0,
            )
    }

    /// Creates an entity with the given `components`, stamped with the
    /// current tick, and returns it. Returns `None`, and changes nothing, if
    /// no entity can be created.
    ///
    /// Every component type must be registered.
    pub fn create(&mut self, components: Vec<(ComponentId, T)>) -> (entity: Option<Entity>)
        requires
            old(self).wf(),
            old(self).all_known(components@),
        ensures
            final(self).wf(),
            final(self).spec_id() == old(self).spec_id(),
            final(self).spec_tick() == old(self).spec_tick(),
            final(self).storage().registry() == old(self).storage().registry(),
            match entity {
                Some(created) => {
                    &&& old(self).entity_store().allocator().upcoming() == Some(created)
                    &&& !old(self).entity_store().holds(created)
                    &&& final(self).entity_store()@ == old(self).entity_store()@.push(created)
                    &&& final(self).storage().sets() == insert_result(
                        old(self).storage().sets(),
                        old(self).storage().spec_groups(),
                        old(self).storage().registry(),
                        created,
                        components@,
                        old(self).spec_tick(),
                    ).sets
                    &&& final(self).storage().spec_groups() == insert_result(
                        old(self).storage().sets(),
                        old(self).storage().spec_groups(),
                        old(self).storage().registry(),
                        created,
                        components@,
                        old(self).spec_tick(),
                    ).groups
                },
                None => {
                    &&& !old(self).entity_store().can_create()
                    &&& !final(self).entity_store().can_create()
                    &&& final(self).entity_store()@ == old(self).entity_store()@
                    &&& final(self).storage() == old(self).storage()
                },
            },
    {
        let tick: Ticks = self.tick;
        self.create_with_ticks(components, tick)
    }

    /// Same as `create`, but the components are stamped with `tick`.
    pub fn create_with_ticks(&mut self, components: Vec<(ComponentId, T)>, tick: Ticks) -> (entity:
        Option<Entity>)
        requires
            old(self).wf(),
            old(self).all_known(components@),
        ensures
            final(self).wf(),
            final(self).spec_id() == old(self).spec_id(),
            final(self).spec_tick() == old(self).spec_tick(),
            final(self).storage().registry() == old(self).storage().registry(),
            match entity {
                Some(created) => {
                    &&& old(self).entity_store().allocator().upcoming() == Some(created)
                    &&& !old(self).entity_store().holds(created)
                    &&& final(self).entity_store()@ == old(self).entity_store()@.push(created)
                    &&& final(self).storage().sets() == insert_result(
                        old(self).storage().sets(),
                        old(self).storage().spec_groups(),
                        old(self).storage().registry(),
                        created,
                        components@,
                        tick,
                    ).sets
                    &&& final(self).storage().spec_groups() == insert_result(
                        old(self).storage().sets(),
                        old(self).storage().spec_groups(),
                        old(self).storage().registry(),
                        created,
                        components@,
                        tick,
                    ).groups
                },
                None => {
                    &&& !old(self).entity_store().can_create()
                    &&& !final(self).entity_store().can_create()
                    &&& final(self).entity_store()@ == old(self).entity_store()@
                    &&& final(self).storage() == old(self).storage()
                },
            },
    {
        match self.entities.create() {
            Some(created) => {
                self.storages.insert(created, components, tick);
                proof {
                    assert forall|j: int, entity: Entity|
                        0 <= j < self.storage().sets().len()
                            && #[trigger] self.storage().sets()[j].contains(
                            entity,
                        ) implies self.entity_store().holds(entity) by {
                        if entity != created {
                            assert(self.storage().sets()[j].slot_of(entity) == old(self).storage().sets()[j].slot_of(entity));
                            assert(old(self).storage().sets()[j].contains(entity));
                        }
                    }
                }
                Some(created)
            },
            None => None,
        }
    }

    /// Creates one entity for each of the `batches` of components, in order,
    /// until no entity can be created, and returns the entities created.
    ///
    /// Every component type must be registered.
    pub fn extend(&mut self, batches: Vec<Vec<(ComponentId, T)>>) -> (created: Vec<Entity>)
        requires
            old(self).wf(),
            forall|b: int| 0 <= b < batches.len() ==> old(self).all_known((#[trigger] batches[b])@),
        ensures
            final(self).wf(),
            final(self).spec_id() == old(self).spec_id(),
            final(self).spec_tick() == old(self).spec_tick(),
            final(self).storage().registry() == old(self).storage().registry(),
            created.len() <= batches.len(),
            created.len() < batches.len() ==> !final(self).entity_store().can_create(),
            final(self).entity_store()@ == old(self).entity_store()@ + created@,
            final(self).storage().sets() == extended(
                old(self).storage().sets(),
                old(self).storage().spec_groups(),
                old(self).storage().registry(),
                created@,
                batches@,
                old(self).spec_tick(),
                created.len() as nat,
            ).sets,
            final(self).storage().spec_groups() == extended(
                old(self).storage().sets(),
                old(self).storage().spec_groups(),
                old(self).storage().registry(),
                created@,
                batches@,
                old(self).spec_tick(),
                created.len() as nat,
            ).groups,
    {
        let tick: Ticks = self.tick;
        self.extend_with_ticks(batches, tick)
    }

    /// Same as `extend`, but the components are stamped with `tick`.
    pub fn extend_with_ticks(&mut self, batches: Vec<Vec<(ComponentId, T)>>, tick: Ticks) -> (created:
        Vec<Entity>)
        requires
            old(self).wf(),
            forall|b: int| 0 <= b < batches.len() ==> old(self).all_known((#[trigger] batches[b])@),
        ensures
            final(self).wf(),
            final(self).spec_id() == old(self).spec_id(),
            final(self).spec_tick() == old(self).spec_tick(),
            final(self).storage().registry() == old(self).storage().registry(),
            created.len() <= batches.len(),
            created.len() < batches.len() ==> !final(self).entity_store().can_create(),
            final(self).entity_store()@ == old(self).entity_store()@ + created@,
            final(self).storage().sets() == extended(
                old(self).storage().sets(),
                old(self).storage().spec_groups(),
                old(self).storage().registry(),
                created@,
                batches@,
                tick,
                created.len() as nat,
            ).sets,
            final(self).storage().spec_groups() == extended(
                old(self).storage().sets(),
                old(self).storage().spec_groups(),
                old(self).storage().registry(),
                created@,
                batches@,
                tick,
                created.len() as nat,
            ).groups,
    {
        let ghost all = batches@;
        let ghost registry = self.storage().registry();
        let mut rest = batches;
        let mut created: Vec<Entity> = Vec::new();
        let total: usize = rest.len();
        let mut done: usize = 0;
        assert(self.entity_store()@ + created@ =~= self.entity_store()@);
        while done < total
            invariant
                done <= total == all.len(),
                all == batches@,
                rest@ == all.subrange(done as int, total as int),
                self.wf(),
                self.spec_id() == old(self).spec_id(),
                self.spec_tick() == old(self).spec_tick(),
                self.storage().registry() == registry,
                registry == old(self).storage().registry(),
                created.len() == done,
                forall|b: int| 0 <= b < all.len() ==> forall|i: int|
                    0 <= i < (#[trigger] all[b])@.len() ==> registry.contains_key(all[b]@[i].0.0),
                self.entity_store()@ == old(self).entity_store()@ + created@,
                self.storage().sets() == extended(
                    old(self).storage().sets(),
                    old(self).storage().spec_groups(),
                    registry,
                    created@,
                    all,
                    tick,
                    done as nat,
                ).sets,
                self.storage().spec_groups() == extended(
                    old(self).storage().sets(),
                    old(self).storage().spec_groups(),
                    registry,
                    created@,
                    all,
                    tick,
                    done as nat,
                ).groups,
            decreases total - done,
        {
            assert(rest@[0] == all[done as int]);
            let components = rest.remove(0);
            assert(rest@ =~= all.subrange(done + 1, total as int));
            let ghost before = self.entity_store()@;
            let ghost so_far = created@;
            match self.create_with_ticks(components, tick) {
                Some(entity) => {
                    created.push(entity);
                    assert(old(self).entity_store()@ + so_far.push(entity) =~= (old(self).entity_store()@ + so_far).push(entity));
                    proof {
                        lemma_extended_prefix(
                            old(self).storage().sets(),
                            old(self).storage().spec_groups(),
                            registry,
                            so_far,
                            created@,
                            all,
                            tick,
                            done as nat,
                        );
                    }
                },
                None => {
                    return created;
                },
            }
            done = done + 1;
        }
        created
    }

    /// Removes `entity` and all of its components from the world. Returns
    /// `true` if the entity existed in the world before the call; nothing
    /// changes otherwise.
    pub fn destroy(&mut self, entity: Entity) -> (destroyed: bool)
        requires
            old(self).wf(),
        ensures
            final(self).wf(),
            final(self).spec_id() == old(self).spec_id(),
            final(self).spec_tick() == old(self).spec_tick(),
            final(self).storage().registry() == old(self).storage().registry(),
            destroyed == old(self).entity_store().holds(entity),
            !final(self).entity_store().holds(entity),
            forall|other: Entity|
                other != entity ==> final(self).entity_store().holds(other)
                    == old(self).entity_store().holds(other),
            destroyed ==> final(self).storage().sets() == delete_all_result(
                old(self).storage().sets(),
                old(self).storage().spec_groups(),
                entity,
            ).sets && final(self).storage().spec_groups() == delete_all_result(
                old(self).storage().sets(),
                old(self).storage().spec_groups(),
                entity,
            ).groups,
            destroyed ==> forall|j: int|
                0 <= j < final(self).storage().sets().len() ==> !(
                #[trigger] final(self).storage().sets()[j]).contains(entity),
            !destroyed ==> final(self).storage() == old(self).storage()
                && final(self).entity_store()@ == old(self).entity_store()@,
    {
        if !self.entities.destroy(entity) {
            return false;
        }
        self.storages.delete_all(entity);
        proof {
            assert forall|j: int, other: Entity|
                0 <= j < self.storage().sets().len() && #[trigger] self.storage().sets()[j].contains(
                    other,
                ) implies self.entity_store().holds(other) by {
                assert(other != entity);
                assert(self.storage().sets()[j].slot_of(other) == old(self).storage().sets()[j].slot_of(other));
                assert(old(self).storage().sets()[j].contains(other));
            }
        }
        true
    }

    /// Appends the given `components` to `entity`, stamped with the current
    /// tick, if the entity exists in the world.
    ///
    /// Every component type must be registered.
    pub fn append(&mut self, entity: Entity, components: Vec<(ComponentId, T)>) -> (result: Result<
        (),
        NoSuchEntity,
    >)
        requires
            old(self).wf(),
            old(self).all_known(components@),
        ensures
            final(self).wf(),
            final(self).spec_id() == old(self).spec_id(),
            final(self).spec_tick() == old(self).spec_tick(),
            final(self).entity_store() == old(self).entity_store(),
            final(self).storage().registry() == old(self).storage().registry(),
            result is Err <==> !old(self).entity_store().holds(entity),
            result is Err ==> final(self).storage() == old(self).storage(),
            result is Ok ==> final(self).storage().sets() == insert_result(
                old(self).storage().sets(),
                old(self).storage().spec_groups(),
                old(self).storage().registry(),
                entity,
                components@,
                old(self).spec_tick(),
            ).sets && final(self).storage().spec_groups() == insert_result(
                old(self).storage().sets(),
                old(self).storage().spec_groups(),
                old(self).storage().registry(),
                entity,
                components@,
                old(self).spec_tick(),
            ).groups,
    {
        let tick: Ticks = self.tick;
        self.append_with_ticks(entity, components, tick)
    }

    /// Same as `append`, but the components are stamped with `tick`.
    pub fn append_with_ticks(
        &mut self,
        entity: Entity,
        components: Vec<(ComponentId, T)>,
        tick: Ticks,
    ) -> (result: Result<(), NoSuchEntity>)
        requires
            old(self).wf(),
            old(self).all_known(components@),
        ensures
            final(self).wf(),
            final(self).spec_id() == old(self).spec_id(),
            final(self).spec_tick() == old(self).spec_tick(),
            final(self).entity_store() == old(self).entity_store(),
            final(self).storage().registry() == old(self).storage().registry(),
            result is Err <==> !old(self).entity_store().holds(entity),
            result is Err ==> final(self).storage() == old(self).storage(),
            result is Ok ==> final(self).storage().sets() == insert_result(
                old(self).storage().sets(),
                old(self).storage().spec_groups(),
                old(self).storage().registry(),
                entity,
                components@,
                tick,
            ).sets && final(self).storage().spec_groups() == insert_result(
                old(self).storage().sets(),
                old(self).storage().spec_groups(),
                old(self).storage().registry(),
                entity,
                components@,
                tick,
            ).groups,
    {
        if !self.entities.contains(entity) {
            return Err(NoSuchEntity);
        }
        self.storages.insert(entity, components, tick);
        proof {
            assert forall|j: int, other: Entity|
                0 <= j < self.storage().sets().len() && #[trigger] self.storage().sets()[j].contains(
                    other,
                ) implies self.entity_store().holds(other) by {
                if other != entity {
                    assert(self.storage().sets()[j].slot_of(other) == old(self).storage().sets()[j].slot_of(other));
                    assert(old(self).storage().sets()[j].contains(other));
                }
            }
        }
        Ok(())
    }

    /// Removes from `entity` its components of the types `ids` and returns
    /// them, `None` standing for a component the entity did not have.
    /// Returns `None`, and changes nothing, if the entity does not exist in
    /// the world.
    ///
    /// Every component type must be registered.
    pub fn remove(&mut self, entity: Entity, ids: &Vec<ComponentId>) -> (values: Option<
        Vec<Option<T>>,
    >)
        requires
            old(self).wf(),
            old(self).storage().all_registered(ids@),
        ensures
            final(self).wf(),
            final(self).spec_id() == old(self).spec_id(),
            final(self).spec_tick() == old(self).spec_tick(),
            final(self).entity_store() == old(self).entity_store(),
            final(self).storage().registry() == old(self).storage().registry(),
            values is None <==> !old(self).entity_store().holds(entity),
            values is None ==> final(self).storage() == old(self).storage(),
            values matches Some(found) ==> {
                &&& final(self).storage().sets() == remove_result(
                    old(self).storage().sets(),
                    old(self).storage().spec_groups(),
                    old(self).storage().registry(),
                    entity,
                    ids@,
                ).sets
                &&& final(self).storage().spec_groups() == remove_result(
                    old(self).storage().sets(),
                    old(self).storage().spec_groups(),
                    old(self).storage().registry(),
                    entity,
                    ids@,
                ).groups
                &&& found.len() == ids.len()
                &&& forall|i: int|
                    0 <= i < ids.len() ==> #[trigger] found[i] == removed(
                        ungroup_result(
                            old(self).storage().sets(),
                            old(self).storage().spec_groups(),
                            old(self).storage().registry(),
                            entity,
                            ids@,
                        ).sets,
                        old(self).storage().registry(),
                        entity,
                        ids@,
                        i as nat,
                    )[storage_of(old(self).storage().registry(), ids[i])].component(entity)
            },
    {
        if !self.entities.contains(entity) {
            return None;
        }
        let values = self.storages.remove(entity, ids);
        proof {
            assert forall|j: int, other: Entity|
                0 <= j < self.storage().sets().len() && #[trigger] self.storage().sets()[j].contains(
                    other,
                ) implies self.entity_store().holds(other) by {
                if other != entity {
                    assert(self.storage().sets()[j].slot_of(other) == old(self).storage().sets()[j].slot_of(other));
                    assert(old(self).storage().sets()[j].contains(other));
                }
            }
        }
        Some(values)
    }

    /// Deletes from `entity` its components of the types `ids`, if the entity
    /// exists in the world. This is `remove` without the components handed
    /// back.
    ///
    /// Every component type must be registered.
    pub fn delete(&mut self, entity: Entity, ids: &Vec<ComponentId>)
        requires
            old(self).wf(),
            old(self).storage().all_registered(ids@),
        ensures
            final(self).wf(),
            final(self).spec_id() == old(self).spec_id(),
            final(self).spec_tick() == old(self).spec_tick(),
            final(self).entity_store() == old(self).entity_store(),
            final(self).storage().registry() == old(self).storage().registry(),
            !old(self).entity_store().holds(entity) ==> final(self).storage() == old(self).storage(),
            old(self).entity_store().holds(entity) ==> final(self).storage().sets()
                == remove_result(
                old(self).storage().sets(),
                old(self).storage().spec_groups(),
                old(self).storage().registry(),
                entity,
                ids@,
            ).sets && final(self).storage().spec_groups() == remove_result(
                old(self).storage().sets(),
                old(self).storage().spec_groups(),
                old(self).storage().registry(),
                entity,
                ids@,
            ).groups,
    {
        if !self.entities.contains(entity) {
            return;
        }
        self.storages.delete(entity, ids);
        proof {
            assert forall|j: int, other: Entity|
                0 <= j < self.storage().sets().len() && #[trigger] self.storage().sets()[j].contains(
                    other,
                ) implies self.entity_store().holds(other) by {
                if other != entity {
                    assert(self.storage().sets()[j].slot_of(other) == old(self).storage().sets()[j].slot_of(other));
                    assert(old(self).storage().sets()[j].contains(other));
                }
            }
        }
    }

    /// Removes all entities and components in the world. Component types
    /// stay registered and groups stay laid out.
    pub fn clear(&mut self)
        requires
            old(self).wf(),
        ensures
            final(self).wf(),
            final(self).spec_id() == old(self).spec_id(),
            final(self).spec_tick() == old(self).spec_tick(),
            final(self).entity_store()@.len() == 0,
            forall|entity: Entity| !final(self).entity_store().holds(entity),
            final(self).storage().registry() == old(self).storage().registry(),
            final(self).storage().sets().len() == old(self).storage().sets().len(),
            forall|j: int|
                0 <= j < final(self).storage().sets().len()
                    ==> #[trigger] final(self).storage().sets()[j] == SparseSetView::<T>::empty(),
            final(self).storage().spec_groups().len() == old(self).storage().spec_groups().len(),
            forall|g: int|
                0 <= g < final(self).storage().spec_groups().len()
                    ==> #[trigger] final(self).storage().spec_groups()[g]
                    == old(self).storage().spec_groups()[g].with_len(0),
    {
        self.entities.clear();
        self.storages.clear();
    }

    /// Hands out the component of type `id` of `entity` for mutation and
    /// stamps its `changed` tick with the current tick. Nothing changes if the
    /// entity has no such component.
    ///
    /// The type must be registered.
    pub fn get_mut(&mut self, entity: Entity, id: ComponentId) -> (component: Option<&mut T>)
        requires
            old(self).wf(),
            old(self).storage().registry().contains_key(id.0),
        ensures
            final(self).wf(),
            final(self).spec_id() == old(self).spec_id(),
            final(self).spec_tick() == old(self).spec_tick(),
            final(self).entity_store() == old(self).entity_store(),
            final(self).storage().registry() == old(self).storage().registry(),
            final(self).storage().spec_groups() == old(self).storage().spec_groups(),
            match component {
                Some(c) => {
                    &&& old(self).storage().sets()[storage_of(
                        old(self).storage().registry(),
                        id,
                    )].component(entity) == Some(*c)
                    &&& final(self).storage().sets() == old(self).storage().sets().update(
                        storage_of(old(self).storage().registry(), id),
                        old(self).storage().sets()[storage_of(
                            old(self).storage().registry(),
                            id,
                        )].mutate(entity, *final(c), old(self).spec_tick()),
                    )
                },
                None => {
                    &&& old(self).storage().sets()[storage_of(
                        old(self).storage().registry(),
                        id,
                    )].component(entity) is None
                    &&& final(self).storage().sets() == old(self).storage().sets()
                },
            },
    {
        let tick: Ticks = self.tick;
        proof {
            let sets = self.storage().sets();
            let k = storage_of(self.storage().registry(), id);
            assert forall|value: T, j: int, other: Entity|
                0 <= j < sets.len() && #[trigger] sets.update(
                    k,
                    sets[k].mutate(entity, value, tick),
                )[j].contains(other) implies sets[j].contains(other) by {}
        }
        self.storages.get_mut(entity, id, tick)
    }

    /// Builds the query that produces the components of the types `base` for
    /// the entities that also hold the types `included` and hold none of the
    /// types `excluded`, for a reader that last ran at `change_tick`.
    ///
    /// Every type must be registered.
    pub fn query(
        &self,
        base: &Vec<ComponentId>,
        included: &Vec<ComponentId>,
        excluded: &Vec<ComponentId>,
        change_tick: Ticks,
    ) -> (query: ComponentQuery<'_, T>)
        requires
            self.wf(),
            self.storage().all_registered(base@),
            self.storage().all_registered(included@),
            self.storage().all_registered(excluded@),
        ensures
            query.wf(),
            query.base@.len() == base.len(),
            query.included@.len() == included.len(),
            query.excluded@.len() == excluded.len(),
            drawn(
                query.base@,
                metas_of(self.storage().registry(), base@),
                self.storage().sets(),
                self.storage().spec_groups(),
            ),
            drawn(
                query.included@,
                metas_of(self.storage().registry(), included@),
                self.storage().sets(),
                self.storage().spec_groups(),
            ),
            drawn(
                query.excluded@,
                metas_of(self.storage().registry(), excluded@),
                self.storage().sets(),
                self.storage().spec_groups(),
            ),
            forall|k: int|
                0 <= k < query.base@.len() ==> (#[trigger] query.base@[k]).world_tick
                    == self.spec_tick() && query.base@[k].change_tick == change_tick,
            query.base@.len() > 0 && query.window() is Some ==> query.is_dense() && window_holds(
                query,
                query.window().unwrap().start as int,
                query.window().unwrap().end as int,
            ),
    {
        self.storages.query(base, included, excluded, self.tick, change_tick)
    }

    /// Borrows an exclusive view over the components of type `id`, for a
    /// writer that last ran one tick ago. Components handed out for mutation
    /// through the view are stamped with the current tick. The world stays
    /// valid whatever is written through the view.
    ///
    /// The type must be registered.
    pub fn fetch_mut(&mut self, id: ComponentId) -> (view: CompMut<'_, T>)
        requires
            old(self).wf(),
            old(self).storage().registry().contains_key(id.0),
        ensures
            view.set.wf(),
            view.set@ == old(self).storage().sets()[storage_of(
                old(self).storage().registry(),
                id,
            )],
            info_agrees(
                view.group_info,
                old(self).storage().registry()[id.0],
                old(self).storage().spec_groups(),
            ),
            view.world_tick == old(self).spec_tick(),
            view.change_tick == old(self).spec_tick() - 1,
            final(self).spec_id() == old(self).spec_id(),
            final(self).spec_tick() == old(self).spec_tick(),
            final(self).entity_store() == old(self).entity_store(),
            final(self).storage().registry() == old(self).storage().registry(),
            final(self).storage().spec_groups() == old(self).storage().spec_groups(),
            final(self).storage().sets() == old(self).storage().sets().update(
                storage_of(old(self).storage().registry(), id),
                final(view.set)@,
            ),
            final(view.set).wf() && final(view.set)@.entities == view.set@.entities
                && final(view.set)@.sparse == view.set@.sparse ==> final(self).wf(),
    {
        let tick: Ticks = self.tick;
        proof {
            let sets = self.storage().sets();
            let k = storage_of(self.storage().registry(), id);
            assert forall|changed: SparseSetView<T>, j: int, other: Entity|
                0 <= j < sets.len() && changed.sparse == sets[k].sparse && #[trigger] sets.update(
                    k,
                    changed,
                )[j].contains(other) implies sets[j].contains(other) by {}
        }
        self.storages.borrow_mut(id, tick, tick - 1)
    }
}

/// Views that can be borrowed from a world for a component type.
pub trait BorrowFromWorld<'a, T>: Sized {
    /// Whether the view is the view over the components of type `id` in
    /// `world`, for a reader that last ran one tick ago.
    spec fn borrowed_from(&self, world: &World<T>, id: ComponentId) -> bool;

    /// Borrows the view over the components of type `id` from `world`.
    ///
    /// The type must be registered.
    fn borrow(world: &'a World<T>, id: ComponentId) -> (view: Self)
        requires
            world.wf(),
            world.storage().registry().contains_key(id.0),
        ensures
            view.borrowed_from(world, id),
    ;
}

impl<'a, T> BorrowFromWorld<'a, T> for Comp<'a, T> {
    open spec fn borrowed_from(&self, world: &World<T>, id: ComponentId) -> bool {
        &&& self.wf()
        &&& self@ == world.storage().sets()[storage_of(world.storage().registry(), id)]
        &&& info_agrees(
            self.group_info,
            world.storage().registry()[id.0],
            world.storage().spec_groups(),
        )
        &&& self.world_tick == world.spec_tick()
        &&& self.change_tick == world.spec_tick() - 1
    }

    fn borrow(world: &'a World<T>, id: ComponentId) -> (view: Self) {
        world.fetch(id)
    }
}

} // verus!
