//! Component storage: the sparse sets of every registered component type,
//! the groups laid over them, and the operations that keep both in step.

use vstd::prelude::*;
use rustc_hash::FxHashMap;
use crate::entity::Entity;
use crate::group::{
    closed_upward, disciplined, group, group_wf, grouped_from, in_all, layout_wf, lemma_grouped,
    lemma_ungrouped, pass_state, pending, released, reordered, same_family, set_views, ungroup,
    ungrouped_below, Group, GroupMetadata, PassState,
};
use crate::laid_out::{
    groups_laid_out, layout_group, layout_metadata, lemma_decode, lemma_group_at,
    lemma_groups_laid_out, lemma_level_unique, lemma_levels, lemma_registry_laid_out, level_of,
    names, prev_arity, registered_before, registry_laid_out, Origin,
};
use crate::layout::{
    distinct, families_disjoint, group_count, shares, storage_count, ComponentId, GroupLayout,
};
use crate::masks::{lemma_ops32, GroupMask, QueryMask, StorageMask};
use crate::registry::{
    lemma_metadata_frame, table_contains, table_get, table_insert, table_new, ComponentMetadata,
};
use crate::sparse_set::{ComponentSparseSet, SparseSetView};
use crate::ticks::Ticks;
use crate::group_info::GroupInfo;
use crate::view::{info_agrees, Comp, CompMut};
use crate::iter::ComponentQuery;
use crate::query::all_valid;
use crate::window::{drawn, lemma_window, window_holds};
use crate::upkeep::{
    lemma_disciplined_pending, lemma_disciplined_released, lemma_empty_disciplined,
    lemma_insert_keeps_pending, lemma_same_entities_disciplined, lemma_ungroup_absent,
    lemma_masks_cover, lemma_released_disciplined, lemma_remove_keeps_released,
};

verus! {

/// Index of the storage that holds the components of type `id`.
pub open spec fn storage_of(registry: Map<u64, ComponentMetadata>, id: ComponentId) -> int {
    registry[id.0].storage_index as int
}

/// The storages after the first `count` of `items` were inserted for
/// `entity` at `tick`, each into the storage of its type.
pub open spec fn inserted<T>(
    sets: Seq<SparseSetView<T>>,
    registry: Map<u64, ComponentMetadata>,
    entity: Entity,
    items: Seq<(ComponentId, T)>,
    tick: Ticks,
    count: nat,
) -> Seq<SparseSetView<T>>
    decreases count,
{
    if count == 0 {
        sets
    } else {
        let before = inserted(sets, registry, entity, items, tick, (count - 1) as nat);
        let k = storage_of(registry, items[count - 1].0);
        before.update(k, before[k].insert(entity, items[count - 1].1, tick))
    }
}

/// The union of the insert masks of the types of the first `count` of
/// `items`.
pub open spec fn insert_mask_of<T>(
    registry: Map<u64, ComponentMetadata>,
    items: Seq<(ComponentId, T)>,
    count: nat,
) -> GroupMask
    decreases count,
{
    if count == 0 {
        GroupMask(0)
    } else {
        GroupMask(
            insert_mask_of(registry, items, (count - 1) as nat).0
                | registry[items[count - 1].0.0].insert_mask.0,
        )
    }
}

/// The storages after `entity` was removed from the storages of the first
/// `count` of the types `ids`.
pub open spec fn removed<T>(
    sets: Seq<SparseSetView<T>>,
    registry: Map<u64, ComponentMetadata>,
    entity: Entity,
    ids: Seq<ComponentId>,
    count: nat,
) -> Seq<SparseSetView<T>>
    decreases count,
{
    if count == 0 {
        sets
    } else {
        let before = removed(sets, registry, entity, ids, (count - 1) as nat);
        let k = storage_of(registry, ids[count - 1]);
        before.update(k, before[k].remove(entity))
    }
}

/// The union of the delete masks of the first `count` of the types `ids`.
pub open spec fn delete_mask_of(
    registry: Map<u64, ComponentMetadata>,
    ids: Seq<ComponentId>,
    count: nat,
) -> GroupMask
    decreases count,
{
    if count == 0 {
        GroupMask(0)
    } else {
        GroupMask(
            delete_mask_of(registry, ids, (count - 1) as nat).0
                | registry[ids[count - 1].0].delete_mask.0,
        )
    }
}

/// The storages with `entity` removed from each of them.
pub open spec fn cleared<T>(sets: Seq<SparseSetView<T>>, entity: Entity) -> Seq<SparseSetView<T>> {
    Seq::new(sets.len(), |j: int| sets[j].remove(entity))
}

/// Storages and groups after `items` were inserted for `entity` at `tick`
/// and the group pass has run over the groups of their families.
pub open spec fn insert_result<T>(
    sets: Seq<SparseSetView<T>>,
    groups: Seq<Group>,
    registry: Map<u64, ComponentMetadata>,
    entity: Entity,
    items: Seq<(ComponentId, T)>,
    tick: Ticks,
) -> PassState<T> {
    grouped_from(
        PassState {
            sets: inserted(sets, registry, entity, items, tick, items.len()),
            groups,
            mask: insert_mask_of(registry, items, items.len()),
        },
        entity,
        0,
        groups.len(),
    )
}

/// Storages and groups after the ungroup pass has run over the groups that
/// the types `ids` take part in.
pub open spec fn ungroup_result<T>(
    sets: Seq<SparseSetView<T>>,
    groups: Seq<Group>,
    registry: Map<u64, ComponentMetadata>,
    entity: Entity,
    ids: Seq<ComponentId>,
) -> PassState<T> {
    ungrouped_below(
        PassState { sets, groups, mask: delete_mask_of(registry, ids, ids.len()) },
        entity,
        groups.len(),
    )
}

/// Storages and groups after `entity` has lost its components of the types
/// `ids`: the ungroup pass first, then the removals in the order given.
pub open spec fn remove_result<T>(
    sets: Seq<SparseSetView<T>>,
    groups: Seq<Group>,
    registry: Map<u64, ComponentMetadata>,
    entity: Entity,
    ids: Seq<ComponentId>,
) -> PassState<T> {
    let pass = ungroup_result(sets, groups, registry, entity, ids);
    PassState {
        sets: removed(pass.sets, registry, entity, ids, ids.len()),
        groups: pass.groups,
        mask: pass.mask,
    }
}

/// Storages and groups after `entity` has lost every component: the ungroup
/// pass over every group first, then the removal from every storage.
pub open spec fn delete_all_result<T>(
    sets: Seq<SparseSetView<T>>,
    groups: Seq<Group>,
    entity: Entity,
) -> PassState<T> {
    let pass = ungrouped_below(
        PassState { sets, groups, mask: GroupMask(u32::MAX) },
        entity,
        groups.len(),
    );
    PassState { sets: cleared(pass.sets, entity), groups: pass.groups, mask: pass.mask }
}

/// What the registry remembers about each of the types `ids`.
pub open spec fn metas_of(
    registry: Map<u64, ComponentMetadata>,
    ids: Seq<ComponentId>,
) -> Seq<ComponentMetadata> {
    Seq::new(ids.len(), |k: int| registry[ids[k].0])
}

/// Inserting components for an entity leaves every storage well-formed and
/// changes the component and the ticks of no other entity.
pub proof fn lemma_inserted_frame<T>(
    sets: Seq<SparseSetView<T>>,
    registry: Map<u64, ComponentMetadata>,
    entity: Entity,
    items: Seq<(ComponentId, T)>,
    tick: Ticks,
    count: nat,
)
    requires
        count <= items.len(),
        forall|j: int| 0 <= j < sets.len() ==> (#[trigger] sets[j]).wf(),
        forall|i: int|
            0 <= i < items.len() ==> 0 <= storage_of(registry, (#[trigger] items[i]).0) < sets.len(),
    ensures
        inserted(sets, registry, entity, items, tick, count).len() == sets.len(),
        forall|j: int|
            0 <= j < sets.len() ==> (#[trigger] inserted(
                sets,
                registry,
                entity,
                items,
                tick,
                count,
            )[j]).wf(),
        forall|j: int, other: Entity|
            0 <= j < sets.len() && other != entity ==> #[trigger] inserted(
                sets,
                registry,
                entity,
                items,
                tick,
                count,
            )[j].slot_of(other) == sets[j].slot_of(other),
    decreases count,
{
    if count > 0 {
        lemma_inserted_frame(sets, registry, entity, items, tick, (count - 1) as nat);
        let before = inserted(sets, registry, entity, items, tick, (count - 1) as nat);
        let after = inserted(sets, registry, entity, items, tick, count);
        let k = storage_of(registry, items[count - 1].0);
        assert(before[k].wf());
        before[k].lemma_insert_wf(entity, items[count - 1].1, tick);
        assert forall|j: int| 0 <= j < sets.len() implies (#[trigger] after[j]).wf() by {
            assert(before[j].wf());
        }
        assert forall|j: int, other: Entity|
            0 <= j < sets.len() && other != entity implies #[trigger] after[j].slot_of(other)
            == sets[j].slot_of(other) by {
            assert(before[j].slot_of(other) == sets[j].slot_of(other));
            if j == k {
                before[k].lemma_insert_slot_of(entity, items[count - 1].1, tick, other);
            }
        }
    }
}

/// Removing an entity from storages leaves every storage well-formed and
/// changes the component and the ticks of no other entity.
pub proof fn lemma_removed_frame<T>(
    sets: Seq<SparseSetView<T>>,
    registry: Map<u64, ComponentMetadata>,
    entity: Entity,
    ids: Seq<ComponentId>,
    count: nat,
)
    requires
        count <= ids.len(),
        forall|j: int| 0 <= j < sets.len() ==> (#[trigger] sets[j]).wf(),
        forall|i: int| 0 <= i < ids.len() ==> 0 <= storage_of(registry, #[trigger] ids[i]) < sets.len(),
    ensures
        removed(sets, registry, entity, ids, count).len() == sets.len(),
        forall|j: int|
            0 <= j < sets.len() ==> (#[trigger] removed(sets, registry, entity, ids, count)[j]).wf(),
        forall|j: int, other: Entity|
            0 <= j < sets.len() && other != entity ==> #[trigger] removed(
                sets,
                registry,
                entity,
                ids,
                count,
            )[j].slot_of(other) == sets[j].slot_of(other),
    decreases count,
{
    if count > 0 {
        lemma_removed_frame(sets, registry, entity, ids, (count - 1) as nat);
        let before = removed(sets, registry, entity, ids, (count - 1) as nat);
        let after = removed(sets, registry, entity, ids, count);
        let k = storage_of(registry, ids[count - 1]);
        assert(before[k].wf());
        before[k].lemma_remove_wf(entity);
        assert forall|j: int| 0 <= j < sets.len() implies (#[trigger] after[j]).wf() by {
            assert(before[j].wf());
        }
        assert forall|j: int, other: Entity|
            0 <= j < sets.len() && other != entity implies #[trigger] after[j].slot_of(other)
            == sets[j].slot_of(other) by {
            assert(before[j].slot_of(other) == sets[j].slot_of(other));
            if j == k {
                before[k].lemma_remove_slot_of(entity, other);
            }
        }
    }
}

/// Removing an entity from storages leaves alone every storage that is not
/// among them.
pub proof fn lemma_removed_elsewhere<T>(
    sets: Seq<SparseSetView<T>>,
    registry: Map<u64, ComponentMetadata>,
    entity: Entity,
    ids: Seq<ComponentId>,
    count: nat,
    k: int,
)
    requires
        count <= ids.len(),
        0 <= k < sets.len(),
        forall|i: int| 0 <= i < count ==> storage_of(registry, #[trigger] ids[i]) != k,
        forall|i: int| 0 <= i < ids.len() ==> 0 <= storage_of(registry, #[trigger] ids[i]) < sets.len(),
    ensures
        removed(sets, registry, entity, ids, count).len() == sets.len(),
        removed(sets, registry, entity, ids, count)[k] == sets[k],
    decreases count,
{
    if count > 0 {
        lemma_removed_elsewhere(sets, registry, entity, ids, (count - 1) as nat, k);
    }
}

/// A union of delete masks holds a group exactly if one of the masks does.
pub proof fn lemma_delete_mask_bits(
    registry: Map<u64, ComponentMetadata>,
    ids: Seq<ComponentId>,
    count: nat,
    g: nat,
)
    requires
        count <= ids.len(),
    ensures
        delete_mask_of(registry, ids, count).has(g) <==> exists|i: int|
            0 <= i < count && (#[trigger] registry[ids[i].0]).delete_mask.has(g),
    decreases count,
{
    if count == 0 {
        lemma_ops32(0, 0, g);
    } else {
        lemma_delete_mask_bits(registry, ids, (count - 1) as nat, g);
        lemma_ops32(
            delete_mask_of(registry, ids, (count - 1) as nat).0,
            registry[ids[count - 1].0].delete_mask.0,
            g,
        );
        if delete_mask_of(registry, ids, count).has(g) {
            if registry[ids[count - 1].0].delete_mask.has(g) {
                assert(0 <= count - 1 < count && registry[ids[count - 1].0].delete_mask.has(g));
            } else {
                let i = choose|i: int|
                    0 <= i < count - 1 && (#[trigger] registry[ids[i].0]).delete_mask.has(g);
                assert(0 <= i < count && registry[ids[i].0].delete_mask.has(g));
            }
        }
    }
}

/// Deleting every component of an entity twice is deleting it once: after
/// the first time no storage holds the entity, and the second time changes
/// neither storages nor groups.
pub proof fn lemma_delete_all_idempotent<T>(
    sets: Seq<SparseSetView<T>>,
    groups: Seq<Group>,
    entity: Entity,
)
    requires
        disciplined(sets, groups),
    ensures
        forall|j: int|
            0 <= j < sets.len() ==> !(#[trigger] delete_all_result(sets, groups, entity).sets[j]).contains(
                entity,
            ),
        delete_all_result(
            delete_all_result(sets, groups, entity).sets,
            delete_all_result(sets, groups, entity).groups,
            entity,
        ).sets == delete_all_result(sets, groups, entity).sets,
        delete_all_result(
            delete_all_result(sets, groups, entity).sets,
            delete_all_result(sets, groups, entity).groups,
            entity,
        ).groups == delete_all_result(sets, groups, entity).groups,
{
    let mask = GroupMask(u32::MAX);
    let start = PassState { sets, groups, mask };
    assert(closed_upward(groups, mask)) by {
        assert forall|g: int, b: int|
            0 <= g < b < groups.len() && #[trigger] same_family(groups, g, b) && mask.has(
                g as nat,
            ) implies mask.has(b as nat) by {
            let bit = b as u32;
            assert((0xffff_ffffu32 >> bit) & 1u32 == 1u32) by (bit_vector)
                requires
                    bit < 32,
            ;
        }
    }
    lemma_disciplined_released(sets, groups, mask, entity);
    lemma_ungrouped(start, entity, groups.len());
    let pass = ungrouped_below(start, entity, groups.len());
    let once = delete_all_result(sets, groups, entity);
    assert forall|j: int| 0 <= j < sets.len() implies !(#[trigger] once.sets[j]).contains(entity) by {
        assert(pass.sets[j].wf());
        pass.sets[j].lemma_remove_index_of(entity, entity);
    }
    let again = PassState { sets: once.sets, groups: once.groups, mask };
    lemma_ungroup_absent(again, entity, once.groups.len());
    assert(cleared(once.sets, entity) =~= once.sets) by {
        assert forall|j: int| 0 <= j < once.sets.len() implies once.sets[j].remove(entity)
            == once.sets[j] by {
            assert(!once.sets[j].contains(entity));
        }
    }
}

/// Inserting a component for an entity whose index is free in the storage
/// of the component type, and then removing it, hands the component back and
/// leaves every storage with the entities, components and ticks it had
/// before. The order of the dense slots may have changed where groups are
/// involved, and the group discipline holds again.
pub proof fn lemma_insert_remove_restores<T>(
    sets: Seq<SparseSetView<T>>,
    groups: Seq<Group>,
    registry: Map<u64, ComponentMetadata>,
    entity: Entity,
    id: ComponentId,
    value: T,
    tick: Ticks,
)
    requires
        disciplined(sets, groups),
        registry.contains_key(id.0),
        registry[id.0].wf(groups, sets.len()),
        !sets[storage_of(registry, id)].occupied(entity.index),
        sets[storage_of(registry, id)].entities.len() < usize::MAX,
    ensures
        ({
            let k = storage_of(registry, id);
            let with = insert_result(sets, groups, registry, entity, seq![(id, value)], tick);
            let loose = ungroup_result(with.sets, with.groups, registry, entity, seq![id]);
            let without = remove_result(with.sets, with.groups, registry, entity, seq![id]);
            &&& with.sets[k].component(entity) == Some(value)
            &&& loose.sets[k].component(entity) == Some(value)
            &&& without.sets.len() == sets.len()
            &&& forall|j: int|
                0 <= j < sets.len() ==> (#[trigger] without.sets[j]).same_content(sets[j])
            &&& disciplined(without.sets, without.groups)
        }),
{
    let metadata = registry[id.0];
    let k = storage_of(registry, id);
    let items = seq![(id, value)];
    let ids = seq![id];
    assert(sets[k].wf());
    // The insertion and the group pass.
    let grown = sets.update(k, sets[k].insert(entity, value, tick));
    assert(inserted(sets, registry, entity, items, tick, 0) == sets);
    assert(inserted(sets, registry, entity, items, tick, 1) == grown);
    assert(insert_mask_of(registry, items, 0) == GroupMask(0));
    let insert_mask = GroupMask(0u32 | metadata.insert_mask.0);
    assert(insert_mask_of(registry, items, 1) == insert_mask);
    let initial = PassState { sets, groups, mask: GroupMask(0) };
    lemma_disciplined_pending(sets, groups, entity);
    lemma_insert_keeps_pending(initial, entity, metadata, value, tick);
    let start = PassState { sets: grown, groups, mask: insert_mask };
    lemma_grouped(start, entity, 0, groups.len());
    let with = insert_result(sets, groups, registry, entity, items, tick);
    assert(with == grouped_from(start, entity, 0, groups.len()));
    assert(reordered(start, with));
    // The ungroup pass and the removal.
    lemma_metadata_frame(metadata, groups, with.groups, sets.len());
    assert(delete_mask_of(registry, ids, 0) == GroupMask(0));
    let delete_mask = GroupMask(0u32 | metadata.delete_mask.0);
    assert(delete_mask_of(registry, ids, 1) == delete_mask);
    assert forall|g: nat| delete_mask.has(g) <==> metadata.delete_mask.has(g) by {
        lemma_ops32(0, metadata.delete_mask.0, g);
    }
    assert(closed_upward(with.groups, delete_mask)) by {
        assert forall|g: int, b: int|
            0 <= g < b < with.groups.len() && #[trigger] same_family(with.groups, g, b)
                && delete_mask.has(g as nat) implies delete_mask.has(b as nat) by {
            assert(group_wf(with.groups, g, with.sets.len()));
            assert(group_wf(with.groups, b, with.sets.len()));
            assert(with.groups[g].metadata.storage_end <= with.groups[b].metadata.new_storage_start);
            assert(metadata.delete_mask.has(b as nat));
        }
    }
    lemma_disciplined_released(with.sets, with.groups, delete_mask, entity);
    let before_pass = PassState { sets: with.sets, groups: with.groups, mask: delete_mask };
    lemma_ungrouped(before_pass, entity, with.groups.len());
    let loose = ungroup_result(with.sets, with.groups, registry, entity, ids);
    assert(loose == ungrouped_below(before_pass, entity, with.groups.len()));
    assert(removed(loose.sets, registry, entity, ids, 0) == loose.sets);
    let shrunk = loose.sets.update(k, loose.sets[k].remove(entity));
    assert(removed(loose.sets, registry, entity, ids, 1) == shrunk);
    let without = remove_result(with.sets, with.groups, registry, entity, ids);
    assert(without.sets == shrunk);
    assert(without.groups == loose.groups);
    // The group discipline holds again.
    lemma_metadata_frame(metadata, with.groups, loose.groups, sets.len());
    assert forall|g: int|
        0 <= g < loose.groups.len() && (#[trigger] loose.groups[g]).start() <= k
            < loose.groups[g].end() implies loose.mask.has(g as nat) by {
        assert(metadata.delete_mask.has(g as nat));
    }
    lemma_remove_keeps_released(loose, entity, k);
    let last = PassState { sets: shrunk, groups: loose.groups, mask: loose.mask };
    assert forall|g: int| 0 <= g < last.groups.len() && last.mask.has(g as nat) implies !in_all(
        last.sets,
        (#[trigger] last.groups[g]).start(),
        last.groups[g].end(),
        entity,
    ) by {
        assert(metadata.delete_mask.has(g as nat));
        assert(!last.sets[k].contains(entity));
    }
    lemma_released_disciplined(last, entity);
    // The content is what it was.
    sets[k].lemma_insert_slot_of(entity, value, tick, entity);
    assert(with.sets[k].same_content(grown[k]));
    with.sets[k].lemma_same_content(grown[k], entity);
    assert(loose.sets[k].same_content(with.sets[k]));
    loose.sets[k].lemma_same_content(with.sets[k], entity);
    assert(loose.sets[k].wf());
    assert forall|j: int| 0 <= j < sets.len() implies (#[trigger] without.sets[j]).same_content(
        sets[j],
    ) by {
        assert(with.sets[j].same_content(grown[j]));
        assert(loose.sets[j].same_content(with.sets[j]));
        assert forall|other: Entity| #[trigger]
            without.sets[j].slot_of(other) == sets[j].slot_of(other) by {
            assert(loose.sets[j].slot_of(other) == with.sets[j].slot_of(other));
            assert(with.sets[j].slot_of(other) == grown[j].slot_of(other));
            if j == k {
                loose.sets[k].lemma_remove_slot_of(entity, other);
                sets[k].lemma_insert_slot_of(entity, value, tick, other);
            }
        }
        if j == k {
            loose.sets[k].lemma_remove_slot_of(entity, entity);
        }
    }
}

/// Owns the sparse sets of the registered component types and the groups
/// laid over them.
pub struct ComponentStorage<T> {
    groups: Vec<Group>,
    metadata: FxHashMap<u64, ComponentMetadata>,
    components: Vec<ComponentSparseSet<T>>,
}

impl<T> ComponentStorage<T> {
    /// The content of the sparse sets, by storage index.
    pub closed spec fn sets(&self) -> Seq<SparseSetView<T>> {
        set_views(self.components@)
    }

    /// The groups.
    pub closed spec fn spec_groups(&self) -> Seq<Group> {
        self.groups@
    }

    /// What the storage remembers about each registered component type.
    pub closed spec fn registry(&self) -> Map<u64, ComponentMetadata> {
        self.metadata@
    }

    /// The invariant of the storage: the group discipline holds, and the
    /// registry agrees with the groups and names each sparse set at most once.
    pub open spec fn wf(&self) -> bool {
        &&& disciplined(self.sets(), self.spec_groups())
        &&& forall|key: u64|
            self.registry().contains_key(key) ==> (#[trigger] self.registry()[key]).wf(
                self.spec_groups(),
                self.sets().len(),
            )
        &&& forall|a: u64, b: u64|
            self.registry().contains_key(a) && self.registry().contains_key(b) && a != b ==> (
            #[trigger] self.registry()[a]).storage_index != (
            #[trigger] self.registry()[b]).storage_index
    }

    /// Whether every one of the types `ids` is registered.
    pub open spec fn all_registered(&self, ids: Seq<ComponentId>) -> bool {
        forall|i: int| 0 <= i < ids.len() ==> self.registry().contains_key((#[trigger] ids[i]).0)
    }

    /// Creates a storage without any group or component type.
    pub fn empty() -> (storage: Self)
        ensures
            storage.wf(),
            storage.sets().len() == 0,
            storage.spec_groups().len() == 0,
            storage.registry() == crate::registry::empty_table(),
    {
        let storage = ComponentStorage {
            groups: Vec::new(),
            metadata: table_new(),
            components: Vec::new(),
        };
        proof {
            assert(storage.sets().len() == 0);
        }
        storage
    }

    /// Creates the storage that `layout` describes: one empty sparse set for
    /// each component type of each family, in the order of the layout; one
    /// group for each arity of each family, with no entity grouped; and a
    /// registry entry for each component type.
    #[must_use]
    pub fn new(layout: &GroupLayout) -> (storage: Self)
        requires
            layout.wf(),
        ensures
            storage.wf(),
            storage.sets().len() == storage_count(
                layout.spec_families(),
                layout.spec_families().len(),
            ),
            forall|j: int|
                0 <= j < storage.sets().len() ==> #[trigger] storage.sets()[j]
                    == SparseSetView::<T>::empty(),
            storage.spec_groups().len() == group_count(
                layout.spec_families(),
                layout.spec_families().len(),
            ),
            forall|f: int, l: int|
                0 <= f < layout.spec_families().len() && 0 <= l
                    < layout.spec_families()[f].spec_arities().len() ==> storage.spec_groups()[group_count(
                    layout.spec_families(),
                    f as nat,
                ) + l] == #[trigger] layout_group(layout.spec_families(), f, l),
            forall|f: int, c: int, l: int|
                0 <= f < layout.spec_families().len() && 0 <= c
                    < layout.spec_families()[f].spec_components().len() && level_of(
                    layout.spec_families()[f].spec_arities(),
                    c,
                    l,
                ) ==> storage.registry().contains_key(
                    layout.spec_families()[f].spec_components()[c].0,
                ) && storage.registry()[layout.spec_families()[f].spec_components()[c].0]
                    == #[trigger] layout_metadata(layout.spec_families(), f, c, l),
            forall|key: u64| #[trigger]
                storage.registry().contains_key(key) ==> names(layout.spec_families(), key),
    {
        let mut groups: Vec<Group> = Vec::new();
        let mut metadata = table_new();
        let mut components: Vec<ComponentSparseSet<T>> = Vec::new();
        let families = layout.families();
        let ghost all = families@;
        let ghost mut origins: Seq<Origin> = Seq::empty();
        let ghost mut sources: Map<u64, Origin> = Map::empty();
        let total: usize = families.len();
        proof {
            if total > 0 {
                lemma_decode(all, 0, 0);
            }
        }
        let mut f: usize = 0;
        while f < total
            invariant
                f <= total == all.len(),
                all == families@,
                forall|k: int| 0 <= k < all.len() ==> (#[trigger] all[k]).wf(),
                group_count(all, all.len()) <= 32,
                storage_count(all, all.len()) <= 512,
                families_disjoint(all),
                groups.len() == group_count(all, f as nat),
                components.len() == storage_count(all, f as nat),
                groups_laid_out(all, groups@, origins),
                registry_laid_out(all, metadata@, sources),
                registered_before(all, metadata@, sources, f as int, 0),
                forall|j: int| 0 <= j < components.len() ==> (#[trigger] components[j])@
                    == SparseSetView::<T>::empty(),
            decreases total - f,
        {
            let family = &families[f];
            let arities = family.arities();
            let ids = family.components();
            let storage_start: usize = components.len();
            let group_start: usize = groups.len();
            proof {
                lemma_decode(all, f as int, f as int);
                assert(all[f as int].wf());
            }
            let group_end: usize = group_start + arities.len();
            let mut prev: usize = 0;
            let mut l: usize = 0;
            while l < arities.len()
                invariant
                    f < total == all.len(),
                    all == families@,
                    arities@ == all[f as int].spec_arities(),
                    ids@ == all[f as int].spec_components(),
                    forall|k: int| 0 <= k < all.len() ==> (#[trigger] all[k]).wf(),
                    group_count(all, all.len()) <= 32,
                    storage_count(all, all.len()) <= 512,
                    families_disjoint(all),
                    l <= arities.len(),
                    prev == prev_arity(arities@, l as int),
                    storage_start == storage_count(all, f as nat),
                    group_start == group_count(all, f as nat),
                    group_end == group_count(all, (f + 1) as nat),
                    group_end <= 32,
                    groups.len() == group_start + l,
                    components.len() == storage_start + prev,
                    groups_laid_out(all, groups@, origins),
                    registry_laid_out(all, metadata@, sources),
                    registered_before(all, metadata@, sources, f as int, prev as int),
                    forall|j: int| 0 <= j < components.len() ==> (#[trigger] components[j])@
                        == SparseSetView::<T>::empty(),
                decreases arities.len() - l,
            {
                let arity: usize = arities[l];
                let new_group_start: usize = groups.len();
                proof {
                    lemma_levels(all[f as int], l as int, l as int);
                    lemma_decode(all, f as int, f as int);
                }
                let created = Group {
                    metadata: GroupMetadata {
                        storage_start,
                        new_storage_start: storage_start + prev,
                        storage_end: storage_start + arity,
                        skip_mask: GroupMask::skip_from_to(new_group_start, group_end),
                        include_mask: QueryMask::including(arity),
                        exclude_mask: QueryMask::excluding(prev, arity),
                    },
                    len: 0,
                };
                assert(created == layout_group(all, f as int, l as int));
                groups.push(created);
                proof {
                    origins = origins.push(Origin { family: f as int, level: l as int, slot: 0 });
                }
                let mut c: usize = prev;
                while c < arity
                    invariant
                        f < total == all.len(),
                        all == families@,
                        arities@ == all[f as int].spec_arities(),
                        ids@ == all[f as int].spec_components(),
                        forall|k: int| 0 <= k < all.len() ==> (#[trigger] all[k]).wf(),
                        group_count(all, all.len()) <= 32,
                        storage_count(all, all.len()) <= 512,
                        families_disjoint(all),
                        l < arities.len(),
                        arity == arities[l as int],
                        arity <= ids.len() <= 16,
                        prev == prev_arity(arities@, l as int),
                        prev <= c <= arity,
                        storage_start == storage_count(all, f as nat),
                        group_start == group_count(all, f as nat),
                        group_end == group_count(all, (f + 1) as nat),
                        group_end <= 32,
                        new_group_start == group_start + l,
                        groups.len() == group_start + l + 1,
                        components.len() == storage_start + c,
                        groups_laid_out(all, groups@, origins),
                        registry_laid_out(all, metadata@, sources),
                        registered_before(all, metadata@, sources, f as int, c as int),
                        forall|j: int| 0 <= j < components.len() ==> (#[trigger] components[j])@
                            == SparseSetView::<T>::empty(),
                    decreases arity - c,
                {
                    let id: ComponentId = ids[c];
                    let entry = ComponentMetadata {
                        storage_index: components.len(),
                        insert_mask: GroupMask::from_to(group_start, group_end),
                        delete_mask: GroupMask::from_to(new_group_start, group_end),
                        group_start,
                        group_end: groups.len(),
                        storage_mask: StorageMask::single(c),
                    };
                    assert(entry == layout_metadata(all, f as int, c as int, l as int));
                    let ghost before = metadata@;
                    let ghost known = sources;
                    proof {
                        // No earlier slot has this component type.
                        assert forall|f2: int, c2: int|
                            0 <= f2 < all.len() && 0 <= c2 < all[f2].spec_components().len() && (f2
                                < f || (f2 == f && c2 < c)) implies (
                        #[trigger] all[f2].spec_components()[c2]).0 != id.0 by {
                            if f2 < f {
                                assert(!shares(
                                    all[f2].spec_components(),
                                    all[f as int].spec_components(),
                                ));
                            } else {
                                assert(distinct(all[f as int].spec_components()));
                            }
                        }
                    }
                    table_insert(&mut metadata, id.0, entry);
                    components.push(ComponentSparseSet::new());
                    proof {
                        sources = sources.insert(
                            id.0,
                            Origin { family: f as int, level: l as int, slot: c as int },
                        );
                        assert forall|key: u64| #[trigger]
                            metadata@.contains_key(key) implies {
                            &&& sources.contains_key(key)
                            &&& 0 <= sources[key].family < all.len()
                            &&& 0 <= sources[key].slot
                                < all[sources[key].family].spec_components().len()
                            &&& all[sources[key].family].spec_components()[sources[key].slot].0
                                == key
                            &&& level_of(
                                all[sources[key].family].spec_arities(),
                                sources[key].slot,
                                sources[key].level,
                            )
                            &&& metadata@[key] == layout_metadata(
                                all,
                                sources[key].family,
                                sources[key].slot,
                                sources[key].level,
                            )
                        } by {
                            if key != id.0 {
                                assert(before.contains_key(key));
                            }
                        }
                        assert forall|f2: int, c2: int|
                            0 <= f2 < all.len() && 0 <= c2 < all[f2].spec_components().len() && (f2
                                < f || (f2 == f && c2 < c + 1)) implies {
                            &&& metadata@.contains_key(#[trigger] all[f2].spec_components()[c2].0)
                            &&& sources[all[f2].spec_components()[c2].0].family == f2
                            &&& sources[all[f2].spec_components()[c2].0].slot == c2
                        } by {
                            if f2 < f || (f2 == f && c2 < c) {
                                assert(all[f2].spec_components()[c2].0 != id.0);
                                assert(before.contains_key(all[f2].spec_components()[c2].0));
                            }
                        }
                    }
                    c = c + 1;
                }
                prev = arity;
                l = l + 1;
            }
            proof {
                assert(prev == ids.len());
                assert forall|f2: int, c2: int|
                    0 <= f2 < all.len() && 0 <= c2 < all[f2].spec_components().len() && (f2 < f + 1
                        || (f2 == f + 1 && c2 < 0)) implies {
                    &&& metadata@.contains_key(#[trigger] all[f2].spec_components()[c2].0)
                    &&& sources[all[f2].spec_components()[c2].0].family == f2
                    &&& sources[all[f2].spec_components()[c2].0].slot == c2
                } by {}
            }
            f = f + 1;
        }
        let storage = ComponentStorage { groups, metadata, components };
        proof {
            assert(storage.sets().len() == storage_count(all, all.len()));
            lemma_groups_laid_out(all, storage.spec_groups(), origins, storage.sets());
            lemma_registry_laid_out(all, storage.spec_groups(), origins, storage.registry(), sources);
            assert forall|f2: int, l2: int|
                0 <= f2 < all.len() && 0 <= l2
                    < all[f2].spec_arities().len() implies storage.spec_groups()[group_count(
                all,
                f2 as nat,
            ) + l2] == #[trigger] layout_group(all, f2, l2) by {
                lemma_group_at(all, storage.spec_groups(), origins, f2, l2);
            }
            assert forall|f2: int, c2: int, l2: int|
                0 <= f2 < all.len() && 0 <= c2 < all[f2].spec_components().len() && level_of(
                    all[f2].spec_arities(),
                    c2,
                    l2,
                ) implies storage.registry().contains_key(all[f2].spec_components()[c2].0)
                && storage.registry()[all[f2].spec_components()[c2].0] == #[trigger] layout_metadata(
                all,
                f2,
                c2,
                l2,
            ) by {
                let key = all[f2].spec_components()[c2].0;
                assert(storage.registry().contains_key(key));
                lemma_level_unique(all[f2], c2, l2, sources[key].level);
            }
            assert forall|key: u64| #[trigger]
                storage.registry().contains_key(key) implies names(all, key) by {
                let f2 = sources[key].family;
                let c2 = sources[key].slot;
                assert(all[f2].spec_components()[c2].0 == key);
            }
        }
        storage
    }

    /// Registers the component type `id` if it is not registered yet, with an
    /// empty sparse set that takes part in no group. Returns `false`, and
    /// changes nothing, if the type is registered already.
    pub fn register(&mut self, id: ComponentId) -> (added: bool)
        requires
            old(self).wf(),
        ensures
            final(self).wf(),
            added == !old(self).registry().contains_key(id.0),
            final(self).spec_groups() == old(self).spec_groups(),
            added ==> final(self).sets() == old(self).sets().push(SparseSetView::<T>::empty())
                && final(self).registry() == old(self).registry().insert(
                id.0,
                ComponentMetadata::ungrouped(old(self).sets().len() as usize),
            ),
            !added ==> final(self).sets() == old(self).sets() && final(self).registry() == old(
                self,
            ).registry(),
    {
        if table_contains(&self.metadata, id.0) {
            return false;
        }
        let storage_index: usize = self.components.len();
        let metadata = ComponentMetadata {
            storage_index,
            insert_mask: GroupMask::none(),
            delete_mask: GroupMask::none(),
            group_start: 0,
            group_end: 0,
            storage_mask: crate::masks::StorageMask::none(),
        };
        table_insert(&mut self.metadata, id.0, metadata);
        self.components.push(ComponentSparseSet::new());
        proof {
            let before = old(self).sets();
            let after = self.sets();
            let groups = self.spec_groups();
            assert(after =~= before.push(SparseSetView::<T>::empty()));
            assert(layout_wf(groups, after.len())) by {
                assert forall|g: int| 0 <= g < groups.len() implies group_wf(
                    groups,
                    g,
                    after.len(),
                ) by {
                    assert(group_wf(groups, g, before.len()));
                }
            }
            assert forall|g: int| 0 <= g < groups.len() implies crate::group::sorted(
                after,
                #[trigger] groups[g],
            ) by {
                assert(crate::group::sorted(before, groups[g]));
                assert(group_wf(groups, g, before.len()));
            }
            assert forall|g: int, entity: Entity|
                0 <= g < groups.len() implies #[trigger] crate::group::exact(
                after,
                groups[g],
                entity,
            ) by {
                assert(crate::group::exact(before, groups[g], entity));
                assert(group_wf(groups, g, before.len()));
                assert(in_all(after, groups[g].start(), groups[g].end(), entity) == in_all(
                    before,
                    groups[g].start(),
                    groups[g].end(),
                    entity,
                )) by {
                    if in_all(before, groups[g].start(), groups[g].end(), entity) {
                        assert forall|j: int| groups[g].start() <= j < groups[g].end() implies (
                        #[trigger] after[j]).contains(entity) by {
                            assert(before[j].contains(entity));
                        }
                    }
                    if in_all(after, groups[g].start(), groups[g].end(), entity) {
                        assert forall|j: int| groups[g].start() <= j < groups[g].end() implies (
                        #[trigger] before[j]).contains(entity) by {
                            assert(after[j].contains(entity));
                        }
                    }
                }
                crate::group::lemma_marks_kept(before, after, groups[g], entity);
            }
            assert forall|j: int| 0 <= j < after.len() implies (#[trigger] after[j]).wf() by {
                if j < before.len() {
                    assert(before[j].wf());
                }
            }
            assert forall|key: u64| self.registry().contains_key(key) implies (
            #[trigger] self.registry()[key]).wf(groups, after.len()) by {
                if key != id.0 {
                    assert(old(self).registry()[key].wf(groups, before.len()));
                } else {
                    assert forall|g: nat| g < 32 implies !metadata.delete_mask.has(g)
                        && !metadata.insert_mask.has(g) by {}
                    assert forall|g: nat| g < groups.len() implies !(groups[g as int].start()
                        <= storage_index && storage_index < groups[g as int].end()) by {
                        assert(group_wf(groups, g as int, before.len()));
                    }
                }
            }
            assert forall|a: u64, b: u64|
                self.registry().contains_key(a) && self.registry().contains_key(b) && a
                    != b implies (#[trigger] self.registry()[a]).storage_index != (
            #[trigger] self.registry()[b]).storage_index by {
                if a != id.0 {
                    assert(old(self).registry()[a].wf(groups, before.len()));
                }
                if b != id.0 {
                    assert(old(self).registry()[b].wf(groups, before.len()));
                }
            }
        }
        true
    }

    /// Returns `true` if the component type `id` is registered.
    #[must_use]
    pub fn is_registered(&self, id: ComponentId) -> (registered: bool)
        ensures
            registered == self.registry().contains_key(id.0),
    {
        table_contains(&self.metadata, id.0)
    }

    /// Returns the number of sparse sets.
    pub fn storage_count(&self) -> (count: usize)
        ensures
            count == self.sets().len(),
    {
        self.components.len()
    }

    /// Returns the groups.
    pub fn groups(&self) -> (groups: &[Group])
        ensures
            groups@ == self.spec_groups(),
    {
        self.groups.as_slice()
    }

    /// Returns what the storage remembers about the component type `id`, if
    /// the type is registered.
    pub fn metadata(&self, id: ComponentId) -> (metadata: Option<ComponentMetadata>)
        ensures
            metadata == if self.registry().contains_key(id.0) {
                Some(self.registry()[id.0])
            } else {
                None::<ComponentMetadata>
            },
    {
        table_get(&self.metadata, id.0)
    }

    /// Inserts the given components for `entity` at `tick`, each into the
    /// sparse set of its type and in the order given, then runs one group
    /// pass over the groups of the families that the types belong to.
    ///
    /// Every type must be registered.
    pub fn insert(&mut self, entity: Entity, components: Vec<(ComponentId, T)>, tick: Ticks)
        requires
            old(self).wf(),
            forall|i: int|
                0 <= i < components.len() ==> old(self).registry().contains_key(
                    (#[trigger] components[i]).0.0,
                ),
        ensures
            final(self).wf(),
            final(self).registry() == old(self).registry(),
            final(self).sets() == insert_result(
                old(self).sets(),
                old(self).spec_groups(),
                old(self).registry(),
                entity,
                components@,
                tick,
            ).sets,
            final(self).spec_groups() == insert_result(
                old(self).sets(),
                old(self).spec_groups(),
                old(self).registry(),
                entity,
                components@,
                tick,
            ).groups,
            final(self).sets().len() == old(self).sets().len(),
            forall|j: int, other: Entity|
                0 <= j < final(self).sets().len() && other != entity ==> #[trigger] final(self).sets()[j].slot_of(other) == old(self).sets()[j].slot_of(other),
            forall|j: int|
                0 <= j < final(self).sets().len() ==> (#[trigger] final(self).sets()[j]).same_content(
                    inserted(
                        old(self).sets(),
                        old(self).registry(),
                        entity,
                        components@,
                        tick,
                        components.len() as nat,
                    )[j],
                ),
    {
        let ghost items = components@;
        let ghost registry = self.registry();
        let ghost first = self.sets();
        let mut components = components;
        let count: usize = components.len();
        let mut mask = GroupMask::none();
        let mut i: usize = 0;
        proof {
            lemma_disciplined_pending(self.sets(), self.spec_groups(), entity);
        }
        while i < count
            invariant
                i <= count == items.len(),
                components@ == items.subrange(i as int, count as int),
                self.groups@ == old(self).groups@,
                self.metadata@ == registry,
                registry == old(self).registry(),
                first == old(self).sets(),
                self.sets().len() == first.len(),
                self.sets() == inserted(first, registry, entity, items, tick, i as nat),
                mask == insert_mask_of(registry, items, i as nat),
                pending(pass_state(self.components@, self.groups@, mask), entity, 0),
                forall|key: u64|
                    registry.contains_key(key) ==> (#[trigger] registry[key]).wf(
                        self.groups@,
                        first.len(),
                    ),
                forall|k: int| 0 <= k < items.len() ==> registry.contains_key((#[trigger] items[k]).0.0),
            decreases count - i,
        {
            let ghost state = pass_state(self.components@, self.groups@, mask);
            let ghost prior = self.sets();
            assert(components@[0] == items[i as int]);
            let (id, value) = components.remove(0);
            assert(components@ =~= items.subrange(i + 1, count as int));
            assert(registry.contains_key(items[i as int].0.0));
            let found = table_get(&self.metadata, id.0);
            let metadata = found.unwrap();
            let k: usize = metadata.storage_index;
            proof {
                assert(registry[id.0].wf(self.groups@, first.len()));
                assert(state.sets[k as int].wf());
                lemma_insert_keeps_pending(state, entity, metadata, value, tick);
                prior[k as int].lemma_insert_index_of(entity, value, tick, entity);
            }
            self.components[k].insert(entity, value, tick);
            mask = mask.union(metadata.insert_mask);
            i = i + 1;
            proof {
                assert(self.sets() =~= prior.update(
                    k as int,
                    prior[k as int].insert(entity, value, tick),
                ));
            }
        }
        let ghost start = pass_state(self.components@, self.groups@, mask);
        group(&mut self.components, &mut self.groups, mask, entity);
        proof {
            let finish = pass_state(self.components@, self.groups@, mask);
            assert(reordered(start, finish));
            assert forall|key: u64| self.registry().contains_key(key) implies (
            #[trigger] self.registry()[key]).wf(self.spec_groups(), self.sets().len()) by {
                lemma_metadata_frame(registry[key], start.groups, finish.groups, first.len());
            }
            assert forall|j: int| 0 <= j < self.sets().len() implies (
            #[trigger] self.sets()[j]).same_content(start.sets[j]) by {
                assert(finish.sets[j].same_content(start.sets[j]));
            }
            assert forall|i: int| 0 <= i < items.len() implies 0 <= storage_of(
                registry,
                (#[trigger] items[i]).0,
            ) < first.len() by {
                assert(registry.contains_key(items[i].0.0));
                assert(registry[items[i].0.0].wf(old(self).spec_groups(), first.len()));
            }
            lemma_inserted_frame(first, registry, entity, items, tick, items.len());
            assert forall|j: int, other: Entity|
                0 <= j < self.sets().len() && other != entity implies #[trigger] self.sets()[j].slot_of(
                other,
            ) == first[j].slot_of(other) by {
                assert(finish.sets[j].same_content(start.sets[j]));
                assert(finish.sets[j].slot_of(other) == start.sets[j].slot_of(other));
            }
        }
    }

    /// Computes the union of the delete masks of the types `ids`.
    fn delete_mask(&self, ids: &Vec<ComponentId>) -> (mask: GroupMask)
        requires
            self.wf(),
            self.all_registered(ids@),
        ensures
            mask == delete_mask_of(self.registry(), ids@, ids.len() as nat),
            closed_upward(self.spec_groups(), mask),
    {
        let mut mask = GroupMask::none();
        let mut i: usize = 0;
        while i < ids.len()
            invariant
                i <= ids.len(),
                self.all_registered(ids@),
                mask == delete_mask_of(self.registry(), ids@, i as nat),
            decreases ids.len() - i,
        {
            assert(self.registry().contains_key(ids[i as int].0));
            let metadata = table_get(&self.metadata, ids[i].0).unwrap();
            mask = mask.union(metadata.delete_mask);
            i = i + 1;
        }
        proof {
            let groups = self.spec_groups();
            let registry = self.registry();
            assert forall|g: int, b: int|
                0 <= g < b < groups.len() && #[trigger] same_family(groups, g, b) && mask.has(
                    g as nat,
                ) implies mask.has(b as nat) by {
                lemma_delete_mask_bits(registry, ids@, ids.len() as nat, g as nat);
                lemma_delete_mask_bits(registry, ids@, ids.len() as nat, b as nat);
                let i = choose|i: int|
                    0 <= i < ids.len() && (#[trigger] registry[ids[i].0]).delete_mask.has(g as nat);
                assert(registry.contains_key(ids[i].0));
                assert(registry[ids[i].0].wf(groups, self.sets().len()));
                assert(group_wf(groups, g, self.sets().len()));
                assert(group_wf(groups, b, self.sets().len()));
                assert(groups[g].metadata.storage_end <= groups[b].metadata.new_storage_start);
                assert(registry[ids[i].0].delete_mask.has(b as nat));
            }
        }
        mask
    }

    /// Removes from `entity` its components of the types `ids` and returns
    /// them, `None` standing for a component the entity did not have. One
    /// ungroup pass over the groups that the types take part in comes first;
    /// then each sparse set lets the entity go, in the order given.
    ///
    /// Every type must be registered.
    pub fn remove(&mut self, entity: Entity, ids: &Vec<ComponentId>) -> (values: Vec<Option<T>>)
        requires
            old(self).wf(),
            old(self).all_registered(ids@),
        ensures
            final(self).wf(),
            final(self).registry() == old(self).registry(),
            final(self).spec_groups() == remove_result(
                old(self).sets(),
                old(self).spec_groups(),
                old(self).registry(),
                entity,
                ids@,
            ).groups,
            final(self).sets() == remove_result(
                old(self).sets(),
                old(self).spec_groups(),
                old(self).registry(),
                entity,
                ids@,
            ).sets,
            values.len() == ids.len(),
            forall|i: int|
                0 <= i < ids.len() ==> #[trigger] values[i] == removed(
                    ungroup_result(
                        old(self).sets(),
                        old(self).spec_groups(),
                        old(self).registry(),
                        entity,
                        ids@,
                    ).sets,
                    old(self).registry(),
                    entity,
                    ids@,
                    i as nat,
                )[storage_of(old(self).registry(), ids[i])].component(entity),
            forall|i: int|
                0 <= i < ids.len() ==> !(#[trigger] final(self).sets()[storage_of(
                    old(self).registry(),
                    ids[i],
                )]).contains(entity),
            forall|i: int|
                0 <= i < ids.len() && (forall|earlier: int| 0 <= earlier < i ==> ids[earlier] != ids[i])
                    ==> #[trigger] values[i] == old(self).sets()[storage_of(
                    old(self).registry(),
                    ids[i],
                )].component(entity),
            final(self).sets().len() == old(self).sets().len(),
            forall|j: int, other: Entity|
                0 <= j < final(self).sets().len() && other != entity ==> #[trigger] final(self).sets()[j].slot_of(other) == old(self).sets()[j].slot_of(other),
    {
        let ghost registry = self.registry();
        let ghost first = self.sets();
        let ghost first_groups = self.spec_groups();
        let mask = self.delete_mask(ids);
        proof {
            lemma_disciplined_released(self.sets(), self.spec_groups(), mask, entity);
        }
        ungroup(&mut self.components, &mut self.groups, mask, entity);
        let ghost base = self.sets();
        let ghost groups = self.spec_groups();
        let mut values: Vec<Option<T>> = Vec::new();
        let mut i: usize = 0;
        proof {
            assert forall|key: u64| registry.contains_key(key) implies (#[trigger] registry[key]).wf(
                groups,
                base.len(),
            ) by {
                lemma_metadata_frame(
                    registry[key],
                    old(self).spec_groups(),
                    groups,
                    old(self).sets().len(),
                );
            }
        }
        while i < ids.len()
            invariant
                i <= ids.len(),
                self.groups@ == groups,
                self.metadata@ == registry,
                self.sets().len() == base.len(),
                self.sets() == removed(base, registry, entity, ids@, i as nat),
                released(pass_state(self.components@, self.groups@, mask), entity, 0),
                mask == delete_mask_of(registry, ids@, ids.len() as nat),
                values.len() == i,
                forall|key: u64|
                    registry.contains_key(key) ==> (#[trigger] registry[key]).wf(groups, base.len()),
                forall|k: int| 0 <= k < ids.len() ==> registry.contains_key((#[trigger] ids[k]).0),
                forall|k: int|
                    0 <= k < i ==> #[trigger] values[k] == removed(
                        base,
                        registry,
                        entity,
                        ids@,
                        k as nat,
                    )[storage_of(registry, ids[k])].component(entity),
                forall|k: int|
                    0 <= k < i ==> !(#[trigger] self.sets()[storage_of(registry, ids[k])]).contains(
                        entity,
                    ),
            decreases ids.len() - i,
        {
            let ghost state = pass_state(self.components@, self.groups@, mask);
            let ghost prior = self.sets();
            assert(registry.contains_key(ids[i as int].0));
            let metadata = table_get(&self.metadata, ids[i].0).unwrap();
            let k: usize = metadata.storage_index;
            proof {
                assert(registry[ids[i as int].0].wf(groups, base.len()));
                assert forall|g: int|
                    0 <= g < groups.len() && (#[trigger] groups[g]).start() <= k
                        < groups[g].end() implies mask.has(g as nat) by {
                    lemma_delete_mask_bits(registry, ids@, ids.len() as nat, g as nat);
                    assert(registry[ids[i as int].0].delete_mask.has(g as nat));
                }
                lemma_remove_keeps_released(state, entity, k as int);
                assert(state.sets[k as int].wf());
            }
            let value = self.components[k].remove(entity);
            values.push(value);
            proof {
                assert(self.sets() =~= prior.update(k as int, prior[k as int].remove(entity)));
                assert forall|n: int| 0 <= n < i + 1 implies !(#[trigger] self.sets()[storage_of(
                    registry,
                    ids[n],
                )]).contains(entity) by {
                    assert(registry.contains_key(ids[n].0));
                    assert(registry[ids[n].0].wf(groups, base.len()));
                    if n < i {
                        assert(!prior[storage_of(registry, ids[n])].contains(entity));
                    }
                }
            }
            i = i + 1;
        }
        proof {
            let state = pass_state(self.components@, self.groups@, mask);
            assert forall|g: int| 0 <= g < state.groups.len() && state.mask.has(g as nat) implies !in_all(
                state.sets,
                (#[trigger] state.groups[g]).start(),
                state.groups[g].end(),
                entity,
            ) by {
                lemma_delete_mask_bits(registry, ids@, ids.len() as nat, g as nat);
                let n = choose|n: int|
                    0 <= n < ids.len() && (#[trigger] registry[ids[n].0]).delete_mask.has(g as nat);
                assert(registry.contains_key(ids[n].0));
                assert(registry[ids[n].0].wf(groups, base.len()));
                assert(!state.sets[storage_of(registry, ids[n])].contains(entity));
            }
            lemma_released_disciplined(state, entity);
            // What the removals leave of the storages as they were before the call.
            assert forall|i: int| 0 <= i < ids.len() implies 0 <= storage_of(
                registry,
                #[trigger] ids[i],
            ) < base.len() by {
                assert(registry.contains_key(ids[i].0));
                assert(registry[ids[i].0].wf(groups, base.len()));
            }
            assert forall|j: int| 0 <= j < base.len() implies (#[trigger] base[j]).wf()
                && base[j].same_content(first[j]) by {}
            lemma_removed_frame(base, registry, entity, ids@, ids.len() as nat);
            assert forall|j: int, other: Entity|
                0 <= j < self.sets().len() && other != entity implies #[trigger] self.sets()[j].slot_of(
                other,
            ) == first[j].slot_of(other) by {
                assert(base[j].same_content(first[j]));
                assert(base[j].slot_of(other) == first[j].slot_of(other));
            }
            assert forall|i: int|
                0 <= i < ids.len() && (forall|earlier: int|
                    0 <= earlier < i ==> ids[earlier] != ids[i]) implies #[trigger] values[i]
                == first[storage_of(registry, ids[i])].component(entity) by {
                let k = storage_of(registry, ids[i]);
                assert forall|n: int| 0 <= n < i implies storage_of(registry, #[trigger] ids[n])
                    != k by {
                    assert(ids[n] != ids[i]);
                    assert(registry.contains_key(ids[n].0));
                    assert(registry.contains_key(ids[i].0));
                    assert(registry[ids[n].0].storage_index != registry[ids[i].0].storage_index);
                }
                lemma_removed_elsewhere(base, registry, entity, ids@, i as nat, k);
                base[k].lemma_same_content(first[k], entity);
            }
        }
        values
    }

    /// Deletes from `entity` its components of the types `ids`: as `remove`,
    /// but the components are dropped.
    ///
    /// Every type must be registered.
    pub fn delete(&mut self, entity: Entity, ids: &Vec<ComponentId>)
        requires
            old(self).wf(),
            old(self).all_registered(ids@),
        ensures
            final(self).wf(),
            final(self).registry() == old(self).registry(),
            final(self).spec_groups() == remove_result(
                old(self).sets(),
                old(self).spec_groups(),
                old(self).registry(),
                entity,
                ids@,
            ).groups,
            final(self).sets() == remove_result(
                old(self).sets(),
                old(self).spec_groups(),
                old(self).registry(),
                entity,
                ids@,
            ).sets,
            forall|i: int|
                0 <= i < ids.len() ==> !(#[trigger] final(self).sets()[storage_of(
                    old(self).registry(),
                    ids[i],
                )]).contains(entity),
            final(self).sets().len() == old(self).sets().len(),
            forall|j: int, other: Entity|
                0 <= j < final(self).sets().len() && other != entity ==> #[trigger] final(self).sets()[j].slot_of(other) == old(self).sets()[j].slot_of(other),
    {
        let _ = self.remove(entity, ids);
    }

    /// Removes `entity` from every sparse set, after an ungroup pass over
    /// every group.
    pub fn delete_all(&mut self, entity: Entity)
        requires
            old(self).wf(),
        ensures
            final(self).wf(),
            final(self).registry() == old(self).registry(),
            final(self).spec_groups() == delete_all_result(
                old(self).sets(),
                old(self).spec_groups(),
                entity,
            ).groups,
            final(self).sets() == delete_all_result(
                old(self).sets(),
                old(self).spec_groups(),
                entity,
            ).sets,
            forall|j: int|
                0 <= j < final(self).sets().len() ==> !(#[trigger] final(self).sets()[j]).contains(
                    entity,
                ),
            final(self).sets().len() == old(self).sets().len(),
            forall|j: int, other: Entity|
                0 <= j < final(self).sets().len() && other != entity ==> #[trigger] final(self).sets()[j].slot_of(other) == old(self).sets()[j].slot_of(other),
    {
        let ghost registry = self.registry();
        let ghost first = self.sets();
        let mask = GroupMask::all();
        proof {
            assert(closed_upward(self.spec_groups(), mask));
            lemma_disciplined_released(self.sets(), self.spec_groups(), mask, entity);
        }
        ungroup(&mut self.components, &mut self.groups, mask, entity);
        let ghost base = self.sets();
        let ghost groups = self.spec_groups();
        let count: usize = self.components.len();
        let mut j: usize = 0;
        while j < count
            invariant
                j <= count == base.len(),
                self.groups@ == groups,
                self.metadata@ == registry,
                self.sets().len() == base.len(),
                groups.len() <= 32,
                mask.0 == u32::MAX,
                forall|g: nat| g < 32 ==> mask.has(g),
                released(pass_state(self.components@, self.groups@, mask), entity, 0),
                forall|k: int|
                    0 <= k < base.len() ==> #[trigger] self.sets()[k] == if k < j {
                        base[k].remove(entity)
                    } else {
                        base[k]
                    },
                forall|k: int| 0 <= k < j ==> !(#[trigger] self.sets()[k]).contains(entity),
            decreases count - j,
        {
            let ghost state = pass_state(self.components@, self.groups@, mask);
            let ghost prior = self.sets();
            proof {
                lemma_remove_keeps_released(state, entity, j as int);
                assert(state.sets[j as int].wf());
            }
            self.components[j].delete(entity);
            proof {
                assert(self.sets() =~= prior.update(j as int, prior[j as int].remove(entity)));
                assert forall|k: int| 0 <= k < j + 1 implies !(#[trigger] self.sets()[k]).contains(
                    entity,
                ) by {
                    if k < j {
                        assert(!prior[k].contains(entity));
                    }
                }
            }
            j = j + 1;
        }
        proof {
            let state = pass_state(self.components@, self.groups@, mask);
            assert(self.sets() =~= cleared(base, entity));
            assert(layout_wf(groups, base.len()));
            assert forall|g: int| 0 <= g < state.groups.len() && state.mask.has(g as nat) implies !in_all(
                state.sets,
                (#[trigger] state.groups[g]).start(),
                state.groups[g].end(),
                entity,
            ) by {
                assert(group_wf(groups, g, base.len()));
                assert(!state.sets[groups[g].start()].contains(entity));
            }
            lemma_released_disciplined(state, entity);
            assert forall|j: int, other: Entity|
                0 <= j < self.sets().len() && other != entity implies #[trigger] self.sets()[j].slot_of(
                other,
            ) == first[j].slot_of(other) by {
                assert(base[j].same_content(first[j]));
                assert(base[j].slot_of(other) == first[j].slot_of(other));
                assert(base[j].wf());
                base[j].lemma_remove_slot_of(entity, other);
            }
            assert forall|key: u64| self.registry().contains_key(key) implies (
            #[trigger] self.registry()[key]).wf(self.spec_groups(), self.sets().len()) by {
                lemma_metadata_frame(
                    registry[key],
                    old(self).spec_groups(),
                    groups,
                    old(self).sets().len(),
                );
            }
        }
    }

    /// Borrows a shared view over the components of type `id`, for a reader
    /// that observes `world_tick` and last ran at `change_tick`.
    ///
    /// The type must be registered.
    #[must_use]
    pub fn borrow(&self, id: ComponentId, world_tick: Ticks, change_tick: Ticks) -> (view: Comp<
        '_,
        T,
    >)
        requires
            self.wf(),
            self.registry().contains_key(id.0),
        ensures
            view.wf(),
            view@ == self.sets()[storage_of(self.registry(), id)],
            info_agrees(view.group_info, self.registry()[id.0], self.spec_groups()),
            view.group_info matches Some(info) ==> info.wf() && info.groups@ == self.spec_groups(),
            view.world_tick == world_tick,
            view.change_tick == change_tick,
    {
        let metadata = table_get(&self.metadata, id.0).unwrap();
        proof {
            assert(self.registry()[id.0].wf(self.spec_groups(), self.sets().len()));
            assert(self.sets()[metadata.storage_index as int].wf());
        }
        let group_info = if !metadata.storage_mask.is_empty() && metadata.group_end
            > metadata.group_start {
            Some(
                GroupInfo::new(
                    self.groups.as_slice(),
                    metadata.group_start,
                    metadata.group_end - 1 - metadata.group_start,
                    metadata.storage_mask,
                ),
            )
        } else {
            None
        };
        Comp::new(&self.components[metadata.storage_index], group_info, world_tick, change_tick)
    }

    /// Hands out the component of type `id` of `entity` for mutation and
    /// stamps its `changed` tick with `tick`, whether or not the caller then
    /// writes. Nothing changes if the entity has no such component.
    ///
    /// The type must be registered.
    pub fn get_mut(&mut self, entity: Entity, id: ComponentId, tick: Ticks) -> (component: Option<
        &mut T,
    >)
        requires
            old(self).wf(),
            old(self).registry().contains_key(id.0),
        ensures
            final(self).wf(),
            final(self).registry() == old(self).registry(),
            final(self).spec_groups() == old(self).spec_groups(),
            match component {
                Some(c) => {
                    &&& old(self).sets()[storage_of(old(self).registry(), id)].component(entity)
                        == Some(*c)
                    &&& final(self).sets() == old(self).sets().update(
                        storage_of(old(self).registry(), id),
                        old(self).sets()[storage_of(old(self).registry(), id)].mutate(
                            entity,
                            *final(c),
                            tick,
                        ),
                    )
                },
                None => {
                    &&& old(self).sets()[storage_of(old(self).registry(), id)].component(entity)
                        is None
                    &&& final(self).sets() == old(self).sets()
                },
            },
    {
        let metadata = table_get(&self.metadata, id.0).unwrap();
        let k: usize = metadata.storage_index;
        let ghost before = self.sets();
        proof {
            assert(self.registry()[id.0].wf(self.spec_groups(), self.sets().len()));
            assert(before[k as int].wf());
        }
        let component = self.components[k].get_mut(entity, tick);
        proof {
            let changed = after_borrow(self.components)@[k as int]@;
            assert(set_views(after_borrow(self.components)@) =~= before.update(k as int, changed));
            before[k as int].lemma_index_of(entity, 0);
            lemma_same_entities_disciplined(before, old(self).spec_groups(), k as int, changed);
        }
        component
    }

    /// Removes every entity from every sparse set. The component types stay
    /// registered and the groups stay laid out.
    pub fn clear(&mut self)
        requires
            old(self).wf(),
        ensures
            final(self).wf(),
            final(self).registry() == old(self).registry(),
            final(self).sets().len() == old(self).sets().len(),
            forall|j: int|
                0 <= j < final(self).sets().len() ==> #[trigger] final(self).sets()[j]
                    == SparseSetView::<T>::empty(),
            final(self).spec_groups().len() == old(self).spec_groups().len(),
            forall|g: int|
                0 <= g < final(self).spec_groups().len() ==> #[trigger] final(self).spec_groups()[g]
                    == old(self).spec_groups()[g].with_len(0),
    {
        let count: usize = self.components.len();
        let mut j: usize = 0;
        while j < count
            invariant
                j <= count == self.components.len(),
                self.groups@ == old(self).groups@,
                self.metadata@ == old(self).metadata@,
                forall|k: int| 0 <= k < j ==> (#[trigger] self.components@[k])@
                    == SparseSetView::<T>::empty(),
            decreases count - j,
        {
            self.components[j].clear();
            j = j + 1;
        }
        let total: usize = self.groups.len();
        let mut g: usize = 0;
        while g < total
            invariant
                g <= total == self.groups.len(),
                total == old(self).groups@.len(),
                self.metadata@ == old(self).metadata@,
                self.components@.len() == count,
                forall|k: int| 0 <= k < count ==> (#[trigger] self.components@[k])@
                    == SparseSetView::<T>::empty(),
                forall|k: int| 0 <= k < g ==> #[trigger] self.groups@[k] == old(
                    self,
                ).groups@[k].with_len(0),
                forall|k: int| g <= k < total ==> #[trigger] self.groups@[k] == old(self).groups@[k],
            decreases total - g,
        {
            let current: Group = self.groups[g];
            self.groups[g] = Group { metadata: current.metadata, len: 0 };
            g = g + 1;
        }
        proof {
            let before = old(self).spec_groups();
            let after = self.spec_groups();
            assert forall|k: int| 0 <= k < before.len() implies (#[trigger] after[k]).metadata
                == before[k].metadata by {}
            assert(self.sets().len() == old(self).sets().len());
            assert(layout_wf(before, old(self).sets().len()));
            crate::upkeep::lemma_layout_frame(before, after, self.sets().len());
            assert forall|k: int| 0 <= k < self.sets().len() implies #[trigger] self.sets()[k]
                == SparseSetView::<T>::empty() by {
                assert(self.components@[k]@ == SparseSetView::<T>::empty());
            }
            assert forall|k: int| 0 <= k < after.len() implies (#[trigger] after[k]).len == 0 by {
                assert(after[k] == before[k].with_len(0));
            }
            lemma_empty_disciplined(self.sets(), after);
            assert(disciplined(self.sets(), self.spec_groups()));
            assert forall|a: u64, b: u64|
                self.registry().contains_key(a) && self.registry().contains_key(b) && a
                    != b implies (#[trigger] self.registry()[a]).storage_index != (
            #[trigger] self.registry()[b]).storage_index by {
                assert(old(self).registry()[a].storage_index != old(self).registry()[b].storage_index);
            }
            assert forall|key: u64| self.registry().contains_key(key) implies (
            #[trigger] self.registry()[key]).wf(after, self.sets().len()) by {
                lemma_metadata_frame(old(self).registry()[key], before, after, self.sets().len());
            }
        }
    }

    /// Borrows a shared view over the components of each of the types `ids`,
    /// in the order given, for a reader that observes `world_tick` and last
    /// ran at `change_tick`.
    ///
    /// Every type must be registered.
    pub fn views(&self, ids: &Vec<ComponentId>, world_tick: Ticks, change_tick: Ticks) -> (views:
        Vec<Comp<'_, T>>)
        requires
            self.wf(),
            self.all_registered(ids@),
        ensures
            all_valid(views@),
            views.len() == ids.len(),
            drawn(views@, metas_of(self.registry(), ids@), self.sets(), self.spec_groups()),
            forall|k: int|
                0 <= k < views.len() ==> (#[trigger] views[k]).world_tick == world_tick
                    && views[k].change_tick == change_tick,
    {
        let mut views: Vec<Comp<'_, T>> = Vec::new();
        let mut i: usize = 0;
        while i < ids.len()
            invariant
                i <= ids.len(),
                self.wf(),
                self.all_registered(ids@),
                views.len() == i,
                forall|k: int|
                    0 <= k < i ==> {
                        &&& (#[trigger] views[k]).wf()
                        &&& views[k]@ == self.sets()[storage_of(self.registry(), ids[k])]
                        &&& info_agrees(
                            views[k].group_info,
                            self.registry()[ids[k].0],
                            self.spec_groups(),
                        )
                        &&& views[k].world_tick == world_tick
                        &&& views[k].change_tick == change_tick
                    },
            decreases ids.len() - i,
        {
            assert(self.registry().contains_key(ids[i as int].0));
            let view = self.borrow(ids[i], world_tick, change_tick);
            views.push(view);
            i = i + 1;
        }
        proof {
            let metas = metas_of(self.registry(), ids@);
            assert forall|k: int| 0 <= k < views@.len() implies {
                &&& (#[trigger] metas[k]).wf(self.spec_groups(), self.sets().len())
                &&& views@[k]@ == self.sets()[metas[k].storage_index as int]
                &&& info_agrees(views@[k].group_info, metas[k], self.spec_groups())
            } by {
                assert(self.registry().contains_key(ids[k].0));
                assert(views[k].wf());
            }
        }
        views
    }

    /// Builds the query that produces the components of the types `base` for
    /// the entities that also hold the types `included` and hold none of the
    /// types `excluded`, for a reader that observes `world_tick` and last ran
    /// at `change_tick`.
    ///
    /// Every type must be registered.
    pub fn query(
        &self,
        base: &Vec<ComponentId>,
        included: &Vec<ComponentId>,
        excluded: &Vec<ComponentId>,
        world_tick: Ticks,
        change_tick: Ticks,
    ) -> (query: ComponentQuery<'_, T>)
        requires
            self.wf(),
            self.all_registered(base@),
            self.all_registered(included@),
            self.all_registered(excluded@),
        ensures
            query.wf(),
            query.base@.len() == base.len(),
            query.included@.len() == included.len(),
            query.excluded@.len() == excluded.len(),
            drawn(query.base@, metas_of(self.registry(), base@), self.sets(), self.spec_groups()),
            drawn(
                query.included@,
                metas_of(self.registry(), included@),
                self.sets(),
                self.spec_groups(),
            ),
            drawn(
                query.excluded@,
                metas_of(self.registry(), excluded@),
                self.sets(),
                self.spec_groups(),
            ),
            forall|k: int|
                0 <= k < query.base@.len() ==> (#[trigger] query.base@[k]).world_tick == world_tick
                    && query.base@[k].change_tick == change_tick,
            query.base@.len() > 0 && query.window() is Some ==> query.is_dense() && window_holds(
                query,
                query.window().unwrap().start as int,
                query.window().unwrap().end as int,
            ),
    {
        let base_views = self.views(base, world_tick, change_tick);
        let included_views = self.views(included, world_tick, change_tick);
        let excluded_views = self.views(excluded, world_tick, change_tick);
        let query = ComponentQuery::new(base_views).including(included_views).excluding(
            excluded_views,
        );
        proof {
            if query.base@.len() > 0 && query.window() is Some {
                lemma_window(
                    query,
                    metas_of(self.registry(), base@),
                    metas_of(self.registry(), included@),
                    metas_of(self.registry(), excluded@),
                    self.sets(),
                    self.spec_groups(),
                );
            }
        }
        query
    }

    /// Borrows an exclusive view over the components of type `id`, for a
    /// writer that observes `world_tick` and last ran at `change_tick`. The
    /// storage stays valid whatever is written through the view, as the view
    /// leaves the entities of the sparse set in place.
    ///
    /// The type must be registered.
    #[must_use]
    pub fn borrow_mut(&mut self, id: ComponentId, world_tick: Ticks, change_tick: Ticks) -> (view:
        CompMut<'_, T>)
        requires
            old(self).wf(),
            old(self).registry().contains_key(id.0),
        ensures
            view.set.wf(),
            view.set@ == old(self).sets()[storage_of(old(self).registry(), id)],
            info_agrees(view.group_info, old(self).registry()[id.0], old(self).spec_groups()),
            view.group_info matches Some(info) ==> info.wf(),
            view.world_tick == world_tick,
            view.change_tick == change_tick,
            final(self).registry() == old(self).registry(),
            final(self).spec_groups() == old(self).spec_groups(),
            final(self).sets() == old(self).sets().update(
                storage_of(old(self).registry(), id),
                final(view.set)@,
            ),
            final(view.set).wf() && final(view.set)@.entities == view.set@.entities
                && final(view.set)@.sparse == view.set@.sparse ==> final(self).wf(),
    {
        let metadata = table_get(&self.metadata, id.0).unwrap();
        let k: usize = metadata.storage_index;
        let ghost before = self.sets();
        let ghost groups = self.spec_groups();
        proof {
            assert(self.registry()[id.0].wf(self.spec_groups(), self.sets().len()));
            assert(before[k as int].wf());
        }
        let group_info = if !metadata.storage_mask.is_empty() && metadata.group_end
            > metadata.group_start {
            Some(
                GroupInfo::new(
                    self.groups.as_slice(),
                    metadata.group_start,
                    metadata.group_end - 1 - metadata.group_start,
                    metadata.storage_mask,
                ),
            )
        } else {
            None
        };
        proof {
            assert forall|changed: SparseSetView<T>|
                changed.wf() && changed.entities == before[k as int].entities && changed.sparse
                    == before[k as int].sparse implies #[trigger] disciplined(
                before.update(k as int, changed),
                groups,
            ) by {
                lemma_same_entities_disciplined(before, groups, k as int, changed);
            }
        }
        let set = &mut self.components[k];
        proof {
            let changed = after_borrow(self.components)@[k as int]@;
            assert(set_views(after_borrow(self.components)@) =~= before.update(k as int, changed));
        }
        CompMut { set, group_info, world_tick, change_tick }
    }
}

} // verus!
