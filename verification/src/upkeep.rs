//! How insertions and removals meet the group passes: what an insertion
//! leaves for the group pass to restore, and what the ungroup pass prepares
//! for a removal.

use vstd::prelude::*;
use crate::entity::Entity;
use crate::group::{
    layout_wf, lemma_ungrouped, ungroup_step, ungrouped_below, status_of, GroupStatus,
    closed_upward, disciplined, earlier_ready, exact, group_wf, in_all, in_prefix,
    lemma_marks_kept, outside, pending, released, same_family, sorted, sound, Group, PassState,
};
use crate::masks::{lemma_ops32, GroupMask};
use crate::registry::ComponentMetadata;
use crate::sparse_set::SparseSetView;
use crate::ticks::Ticks;

verus! {

/// The groups that a storage takes part in are groups of its family: its
/// insert mask and its delete mask both hold them.
pub proof fn lemma_masks_cover(metadata: ComponentMetadata, groups: Seq<Group>, count: nat, g: int)
    requires
        crate::group::layout_wf(groups, count),
        metadata.wf(groups, count),
        0 <= g < groups.len(),
        groups[g].start() <= metadata.storage_index < groups[g].end(),
    ensures
        metadata.insert_mask.has(g as nat),
        metadata.delete_mask.has(g as nat),
{
    assert(metadata.delete_mask.has(g as nat));
    if metadata.group_end == 0 {
        lemma_ops32(0, 0, g as nat);
    } else {
        let f = metadata.group_end - 1;
        assert(group_wf(groups, f, count));
        assert(group_wf(groups, g, count));
        if f < g {
            assert(same_family(groups, f, g));
        } else if g < f {
            assert(same_family(groups, g, f));
        }
        assert(metadata.insert_mask.has(g as nat));
    }
}

/// Storages and groups that keep the group discipline are pending for a
/// group pass that has nothing to visit.
pub proof fn lemma_disciplined_pending<T>(
    sets: Seq<SparseSetView<T>>,
    groups: Seq<Group>,
    entity: Entity,
)
    requires
        disciplined(sets, groups),
    ensures
        pending(PassState { sets, groups, mask: GroupMask(0) }, entity, 0),
{
    let state = PassState { sets, groups, mask: GroupMask(0) };
    assert forall|g: int| 0 <= g < groups.len() implies sound(sets, #[trigger] groups[g], entity) by {
        assert(exact(sets, groups[g], entity));
    }
    assert forall|g: int, a: int|
        0 <= g < state.groups.len() && state.mask.has(g as nat) && 0 <= a < g && same_family(
            state.groups,
            a,
            g,
        ) implies #[trigger] earlier_ready(state, entity, 0, g, a) by {
        lemma_ops32(0, 0, g as nat);
    }
    assert forall|g: int, other: Entity|
        0 <= g < groups.len() && other != entity implies #[trigger] exact(sets, groups[g], other) by {}
}

/// Inserting a component for the entity of a pending group pass, and adding
/// the insert mask of the component's type to the mask, keeps the pass
/// pending.
pub proof fn lemma_insert_keeps_pending<T>(
    state: PassState<T>,
    entity: Entity,
    metadata: ComponentMetadata,
    value: T,
    tick: Ticks,
)
    requires
        pending(state, entity, 0),
        metadata.wf(state.groups, state.sets.len()),
    ensures
        pending(
            PassState {
                sets: state.sets.update(
                    metadata.storage_index as int,
                    state.sets[metadata.storage_index as int].insert(entity, value, tick),
                ),
                groups: state.groups,
                mask: GroupMask(state.mask.0 | metadata.insert_mask.0),
            },
            entity,
            0,
        ),
{
    let sets = state.sets;
    let groups = state.groups;
    let k = metadata.storage_index as int;
    let grown = sets[k].insert(entity, value, tick);
    let after = sets.update(k, grown);
    let mask = GroupMask(state.mask.0 | metadata.insert_mask.0);
    let next = PassState { sets: after, groups, mask };
    assert(sets[k].wf());
    sets[k].lemma_insert_wf(entity, value, tick);
    sets[k].lemma_insert_index_of(entity, value, tick, entity);
    assert forall|j: int| 0 <= j < after.len() implies (#[trigger] after[j]).wf() by {
        assert(sets[j].wf());
    }
    // Nothing changes for the other entities, and the entity leaves no storage.
    assert forall|j: int, other: Entity| 0 <= j < after.len() implies (other != entity ==> (
    #[trigger] after[j].index_of(other)) == sets[j].index_of(other)) && (sets[j].contains(other)
        ==> after[j].contains(other)) by {
        assert(sets[j].wf());
        if j == k {
            sets[k].lemma_insert_index_of(entity, value, tick, other);
        }
    }
    assert forall|g: int| 0 <= g < groups.len() implies sorted(after, #[trigger] groups[g]) by {
        assert(sorted(sets, groups[g]));
        assert(group_wf(groups, g, sets.len()));
        let first = groups[g].start();
        assert forall|j: int| groups[g].start() <= j < groups[g].end() implies groups[g].len <= (
        #[trigger] after[j]).entities.len() by {
            assert(groups[g].len <= sets[j].entities.len());
        }
        assert forall|j: int, i: int|
            groups[g].start() <= j < groups[g].end() && 0 <= i < groups[g].len implies (
        #[trigger] after[j].entities[i]) == after[first].entities[i] by {
            assert(sets[j].entities[i] == sets[first].entities[i]);
            assert(groups[g].len <= sets[j].entities.len());
            assert(groups[g].len <= sets[first].entities.len());
        }
    }
    assert forall|g: int, other: Entity| 0 <= g < groups.len() implies (other != entity ==> (
    #[trigger] exact(after, groups[g], other)) == exact(sets, groups[g], other)) && (other
        != entity ==> sound(after, groups[g], other) == sound(sets, groups[g], other)) by {
        if other != entity {
            assert(group_wf(groups, g, sets.len()));
            assert forall|j: int| groups[g].start() <= j < groups[g].end() implies in_prefix(
                #[trigger] after[j],
                groups[g].len,
                other,
            ) == in_prefix(sets[j], groups[g].len, other) by {
                assert(after[j].index_of(other) == sets[j].index_of(other));
            }
            assert(in_all(after, groups[g].start(), groups[g].end(), other) == in_all(
                sets,
                groups[g].start(),
                groups[g].end(),
                other,
            )) by {
                if in_all(sets, groups[g].start(), groups[g].end(), other) {
                    assert forall|j: int| groups[g].start() <= j < groups[g].end() implies (
                    #[trigger] after[j]).contains(other) by {
                        assert(sets[j].contains(other));
                        assert(after[j].index_of(other) == sets[j].index_of(other));
                    }
                }
                if in_all(after, groups[g].start(), groups[g].end(), other) {
                    assert forall|j: int| groups[g].start() <= j < groups[g].end() implies (
                    #[trigger] sets[j]).contains(other) by {
                        assert(after[j].contains(other));
                        assert(after[j].index_of(other) == sets[j].index_of(other));
                    }
                }
            }
            lemma_marks_kept(sets, after, groups[g], other);
        }
    }
    assert forall|g: int| 0 <= g < groups.len() implies sound(after, #[trigger] groups[g], entity) by {
        assert(sound(sets, groups[g], entity));
        assert(sorted(sets, groups[g]));
        assert(group_wf(groups, g, sets.len()));
        assert forall|j: int|
            groups[g].start() <= j < groups[g].end() && in_prefix(
                #[trigger] after[j],
                groups[g].len,
                entity,
            ) implies in_all(after, groups[g].start(), groups[g].end(), entity) by {
            if in_prefix(after[j], groups[g].len, entity) {
                assert(groups[g].len <= sets[j].entities.len());
                assert(in_prefix(sets[j], groups[g].len, entity));
                assert(in_all(sets, groups[g].start(), groups[g].end(), entity));
                assert forall|i: int| groups[g].start() <= i < groups[g].end() implies (
                #[trigger] after[i]).contains(entity) by {
                    assert(sets[i].contains(entity));
                }
            }
        }
    }
    assert forall|g: int| 0 <= g < groups.len() && !mask.has(g as nat) implies exact(
        after,
        #[trigger] groups[g],
        entity,
    ) by {
        lemma_ops32(state.mask.0, metadata.insert_mask.0, g as nat);
        assert(exact(sets, groups[g], entity));
        assert(group_wf(groups, g, sets.len()));
        if groups[g].start() <= k < groups[g].end() {
            lemma_masks_cover(metadata, groups, sets.len(), g);
        }
        assert forall|j: int| groups[g].start() <= j < groups[g].end() implies in_prefix(
            #[trigger] after[j],
            groups[g].len,
            entity,
        ) == in_prefix(sets[j], groups[g].len, entity) by {}
        assert(in_all(after, groups[g].start(), groups[g].end(), entity) == in_all(
            sets,
            groups[g].start(),
            groups[g].end(),
            entity,
        )) by {
            if in_all(sets, groups[g].start(), groups[g].end(), entity) {
                assert forall|j: int| groups[g].start() <= j < groups[g].end() implies (
                #[trigger] after[j]).contains(entity) by {
                    assert(sets[j].contains(entity));
                }
            }
            if in_all(after, groups[g].start(), groups[g].end(), entity) {
                assert forall|j: int| groups[g].start() <= j < groups[g].end() implies (
                #[trigger] sets[j]).contains(entity) by {
                    assert(after[j].contains(entity));
                }
            }
        }
        lemma_marks_kept(sets, after, groups[g], entity);
    }
    assert forall|g: int, a: int|
        0 <= g < next.groups.len() && next.mask.has(g as nat) && 0 <= a < g && same_family(
            next.groups,
            a,
            g,
        ) implies #[trigger] earlier_ready(next, entity, 0, g, a) by {
        lemma_ops32(state.mask.0, metadata.insert_mask.0, g as nat);
        lemma_ops32(state.mask.0, metadata.insert_mask.0, a as nat);
        if state.mask.has(g as nat) {
            assert(earlier_ready(state, entity, 0, g, a));
        } else {
            assert(metadata.insert_mask.has(g as nat));
            assert(metadata.insert_mask.has(a as nat));
        }
    }
    assert forall|g: int, other: Entity|
        0 <= g < groups.len() && other != entity implies #[trigger] exact(after, groups[g], other) by {
        assert(exact(sets, groups[g], other));
    }
}

/// Storages and groups that keep the group discipline are ready for an
/// ungroup pass with any mask that holds, with a group, the later groups of
/// its family.
pub proof fn lemma_disciplined_released<T>(
    sets: Seq<SparseSetView<T>>,
    groups: Seq<Group>,
    mask: GroupMask,
    entity: Entity,
)
    requires
        disciplined(sets, groups),
        closed_upward(groups, mask),
    ensures
        released(PassState { sets, groups, mask }, entity, groups.len()),
{
    assert forall|g: int, other: Entity|
        0 <= g < groups.len() && other != entity implies #[trigger] exact(sets, groups[g], other) by {}
    assert forall|g: int| 0 <= g < groups.len() implies exact(sets, #[trigger] groups[g], entity) by {}
}

/// After the ungroup pass, removing the entity from a storage whose groups
/// the mask all holds keeps what the pass has released, and the storage no
/// longer holds the entity.
pub proof fn lemma_remove_keeps_released<T>(state: PassState<T>, entity: Entity, k: int)
    requires
        released(state, entity, 0),
        0 <= k < state.sets.len(),
        forall|g: int|
            0 <= g < state.groups.len() && (#[trigger] state.groups[g]).start() <= k
                < state.groups[g].end() ==> state.mask.has(g as nat),
    ensures
        released(
            PassState {
                sets: state.sets.update(k, state.sets[k].remove(entity)),
                groups: state.groups,
                mask: state.mask,
            },
            entity,
            0,
        ),
        !state.sets[k].remove(entity).contains(entity),
        forall|j: int|
            0 <= j < state.sets.len() && !state.sets[j].contains(entity) ==> !(
            #[trigger] state.sets.update(k, state.sets[k].remove(entity))[j]).contains(entity),
{
    let sets = state.sets;
    let groups = state.groups;
    let shrunk = sets[k].remove(entity);
    let after = sets.update(k, shrunk);
    let next = PassState { sets: after, groups, mask: state.mask };
    assert(sets[k].wf());
    sets[k].lemma_remove_wf(entity);
    sets[k].lemma_remove_index_of(entity, entity);
    sets[k].lemma_index_of(entity, 0);
    assert forall|j: int| 0 <= j < after.len() implies (#[trigger] after[j]).wf() by {
        assert(sets[j].wf());
    }
    assert forall|g: int, other: Entity|
        0 <= g < groups.len() && groups[g].start() <= k < groups[g].end() implies (
    #[trigger] in_prefix(after[k], groups[g].len, other)) == (other != entity && in_prefix(
        sets[k],
        groups[g].len,
        other,
    )) by {
        assert(state.mask.has(g as nat));
        assert(outside(sets, groups[g], entity));
        assert(!in_prefix(sets[k], groups[g].len, entity));
        sets[k].lemma_remove_index_of(entity, other);
        sets[k].lemma_index_of(other, 0);
    }
    assert forall|g: int| 0 <= g < groups.len() implies sorted(after, #[trigger] groups[g]) by {
        assert(sorted(sets, groups[g]));
        assert(group_wf(groups, g, sets.len()));
        let first = groups[g].start();
        if groups[g].start() <= k < groups[g].end() {
            assert(state.mask.has(g as nat));
            assert(outside(sets, groups[g], entity));
            assert(!in_prefix(sets[k], groups[g].len, entity));
        }
        assert forall|j: int| groups[g].start() <= j < groups[g].end() implies groups[g].len <= (
        #[trigger] after[j]).entities.len() by {
            assert(groups[g].len <= sets[j].entities.len());
        }
        assert forall|j: int, i: int|
            groups[g].start() <= j < groups[g].end() && 0 <= i < groups[g].len implies (
        #[trigger] after[j].entities[i]) == after[first].entities[i] by {
            assert(sets[j].entities[i] == sets[first].entities[i]);
            assert(groups[g].len <= sets[j].entities.len());
            assert(groups[g].len <= sets[first].entities.len());
        }
    }
    assert forall|g: int, other: Entity| 0 <= g < groups.len() && other != entity implies (
    #[trigger] exact(after, groups[g], other)) by {
        if other != entity {
            assert(exact(sets, groups[g], other));
            assert(group_wf(groups, g, sets.len()));
            sets[k].lemma_remove_index_of(entity, other);
            assert forall|j: int| groups[g].start() <= j < groups[g].end() implies in_prefix(
                #[trigger] after[j],
                groups[g].len,
                other,
            ) == in_prefix(sets[j], groups[g].len, other) by {
                if j == k {
                    assert(in_prefix(after[k], groups[g].len, other) == (other != entity
                        && in_prefix(sets[k], groups[g].len, other)));
                }
            }
            assert(in_all(after, groups[g].start(), groups[g].end(), other) == in_all(
                sets,
                groups[g].start(),
                groups[g].end(),
                other,
            )) by {
                if in_all(sets, groups[g].start(), groups[g].end(), other) {
                    assert forall|j: int| groups[g].start() <= j < groups[g].end() implies (
                    #[trigger] after[j]).contains(other) by {
                        assert(sets[j].contains(other));
                    }
                }
                if in_all(after, groups[g].start(), groups[g].end(), other) {
                    assert forall|j: int| groups[g].start() <= j < groups[g].end() implies (
                    #[trigger] sets[j]).contains(other) by {
                        assert(after[j].contains(other));
                    }
                }
            }
            lemma_marks_kept(sets, after, groups[g], other);
        }
    }
    assert forall|g: int| 0 <= g < groups.len() && state.mask.has(g as nat) implies outside(
        after,
        #[trigger] groups[g],
        entity,
    ) by {
        assert(outside(sets, groups[g], entity));
        assert(group_wf(groups, g, sets.len()));
        assert forall|j: int| groups[g].start() <= j < groups[g].end() implies !in_prefix(
            #[trigger] after[j],
            groups[g].len,
            entity,
        ) by {
            assert(!in_prefix(sets[j], groups[g].len, entity));
        }
    }
    assert forall|g: int| 0 <= g < groups.len() && !state.mask.has(g as nat) implies exact(
        after,
        #[trigger] groups[g],
        entity,
    ) by {
        assert(exact(sets, groups[g], entity));
        assert(group_wf(groups, g, sets.len()));
        assert forall|j: int| groups[g].start() <= j < groups[g].end() implies in_prefix(
            #[trigger] after[j],
            groups[g].len,
            entity,
        ) == in_prefix(sets[j], groups[g].len, entity) by {}
        assert(in_all(after, groups[g].start(), groups[g].end(), entity) == in_all(
            sets,
            groups[g].start(),
            groups[g].end(),
            entity,
        )) by {
            if in_all(sets, groups[g].start(), groups[g].end(), entity) {
                assert forall|j: int| groups[g].start() <= j < groups[g].end() implies (
                #[trigger] after[j]).contains(entity) by {
                    assert(sets[j].contains(entity));
                }
            }
            if in_all(after, groups[g].start(), groups[g].end(), entity) {
                assert forall|j: int| groups[g].start() <= j < groups[g].end() implies (
                #[trigger] sets[j]).contains(entity) by {
                    assert(after[j].contains(entity));
                }
            }
        }
        lemma_marks_kept(sets, after, groups[g], entity);
    }
    assert forall|g: int, other: Entity|
        0 <= g < groups.len() && other != entity implies #[trigger] exact(after, groups[g], other) by {}
}

/// Once the entity has left a storage of every group that the mask of the
/// ungroup pass holds, the group discipline is restored.
pub proof fn lemma_released_disciplined<T>(state: PassState<T>, entity: Entity)
    requires
        released(state, entity, 0),
        forall|g: int|
            0 <= g < state.groups.len() && state.mask.has(g as nat) ==> !in_all(
                state.sets,
                (#[trigger] state.groups[g]).start(),
                state.groups[g].end(),
                entity,
            ),
    ensures
        disciplined(state.sets, state.groups),
{
    assert forall|g: int, other: Entity| 0 <= g < state.groups.len() implies #[trigger] exact(
        state.sets,
        state.groups[g],
        other,
    ) by {
        if other == entity {
            if state.mask.has(g as nat) {
                assert(outside(state.sets, state.groups[g], entity));
                assert(!in_all(state.sets, state.groups[g].start(), state.groups[g].end(), entity));
            } else {
                assert(exact(state.sets, state.groups[g], entity));
            }
        }
    }
}

/// Replacing a storage by one with the same entities in the same dense
/// slots, whatever their components and ticks, keeps the group discipline.
pub proof fn lemma_same_entities_disciplined<T>(
    sets: Seq<SparseSetView<T>>,
    groups: Seq<Group>,
    k: int,
    changed: SparseSetView<T>,
)
    requires
        disciplined(sets, groups),
        0 <= k < sets.len(),
        changed.wf(),
        changed.entities == sets[k].entities,
        changed.sparse == sets[k].sparse,
    ensures
        disciplined(sets.update(k, changed), groups),
{
    let after = sets.update(k, changed);
    assert forall|j: int| 0 <= j < after.len() implies (#[trigger] after[j]).wf() by {
        assert(sets[j].wf());
    }
    assert forall|g: int| 0 <= g < groups.len() implies sorted(after, #[trigger] groups[g]) by {
        assert(sorted(sets, groups[g]));
        assert(group_wf(groups, g, sets.len()));
        let first = groups[g].start();
        assert forall|j: int| groups[g].start() <= j < groups[g].end() implies groups[g].len <= (
        #[trigger] after[j]).entities.len() by {
            assert(groups[g].len <= sets[j].entities.len());
        }
        assert forall|j: int, i: int|
            groups[g].start() <= j < groups[g].end() && 0 <= i < groups[g].len implies (
        #[trigger] after[j].entities[i]) == after[first].entities[i] by {
            assert(sets[j].entities[i] == sets[first].entities[i]);
        }
    }
    assert forall|g: int, entity: Entity| 0 <= g < groups.len() implies #[trigger] exact(
        after,
        groups[g],
        entity,
    ) by {
        assert(exact(sets, groups[g], entity));
        assert(group_wf(groups, g, sets.len()));
        assert forall|j: int| groups[g].start() <= j < groups[g].end() implies in_prefix(
            #[trigger] after[j],
            groups[g].len,
            entity,
        ) == in_prefix(sets[j], groups[g].len, entity) by {}
        assert(in_all(after, groups[g].start(), groups[g].end(), entity) == in_all(
            sets,
            groups[g].start(),
            groups[g].end(),
            entity,
        )) by {
            if in_all(sets, groups[g].start(), groups[g].end(), entity) {
                assert forall|j: int| groups[g].start() <= j < groups[g].end() implies (
                #[trigger] after[j]).contains(entity) by {
                    assert(sets[j].contains(entity));
                }
            }
            if in_all(after, groups[g].start(), groups[g].end(), entity) {
                assert forall|j: int| groups[g].start() <= j < groups[g].end() implies (
                #[trigger] sets[j]).contains(entity) by {
                    assert(after[j].contains(entity));
                }
            }
        }
        lemma_marks_kept(sets, after, groups[g], entity);
    }
}

/// Storages that hold no entity, under groups that have none grouped, keep
/// the group discipline whatever the layout.
pub proof fn lemma_empty_disciplined<T>(sets: Seq<SparseSetView<T>>, groups: Seq<Group>)
    requires
        layout_wf(groups, sets.len()),
        forall|j: int| 0 <= j < sets.len() ==> #[trigger] sets[j] == SparseSetView::<T>::empty(),
        forall|g: int| 0 <= g < groups.len() ==> (#[trigger] groups[g]).len == 0,
    ensures
        disciplined(sets, groups),
{
    assert forall|j: int| 0 <= j < sets.len() implies (#[trigger] sets[j]).wf() by {}
    assert forall|g: int| 0 <= g < groups.len() implies sorted(sets, #[trigger] groups[g]) by {
        assert(groups[g].len == 0);
    }
    assert forall|g: int, entity: Entity| 0 <= g < groups.len() implies #[trigger] exact(
        sets,
        groups[g],
        entity,
    ) by {
        assert(groups[g].len == 0);
        assert(group_wf(groups, g, sets.len()));
        assert(!sets[groups[g].start()].contains(entity));
    }
}

/// The ungroup pass changes nothing for an entity that no storage holds.
pub proof fn lemma_ungroup_absent<T>(state: PassState<T>, entity: Entity, below: nat)
    requires
        layout_wf(state.groups, state.sets.len()),
        forall|j: int| 0 <= j < state.sets.len() ==> !(#[trigger] state.sets[j]).contains(entity),
        below <= state.groups.len(),
    ensures
        ungrouped_below(state, entity, below) == state,
    decreases below,
{
    if below > 0 {
        let index = (below - 1) as nat;
        let group = state.groups[index as int];
        assert(group_wf(state.groups, index as int, state.sets.len()));
        assert(!state.sets[group.fresh()].contains(entity));
        assert(status_of(state.sets, group, entity) == GroupStatus::Incomplete);
        assert(ungroup_step(state, entity, index) == state);
        lemma_ungroup_absent(state, entity, index);
    }
}

/// Whether a layout is consistent depends on the metadata of the groups
/// only, not on how many entities they have grouped.
pub proof fn lemma_layout_frame(before: Seq<Group>, after: Seq<Group>, count: nat)
    requires
        layout_wf(before, count),
        after.len() == before.len(),
        forall|g: int| 0 <= g < before.len() ==> (#[trigger] after[g]).metadata == before[g].metadata,
    ensures
        layout_wf(after, count),
{
    assert forall|g: int| 0 <= g < after.len() implies group_wf(after, g, count) by {
        assert(group_wf(before, g, count));
        assert(after[g].metadata == before[g].metadata);
        if g > 0 {
            assert(after[g - 1].metadata == before[g - 1].metadata);
        }
    }
    assert forall|a: int, b: int| 0 <= a < b < after.len() implies if same_family(after, a, b) {
        (#[trigger] after[a]).metadata.storage_end <= (#[trigger] after[b]).metadata.new_storage_start
    } else {
        after[a].metadata.storage_end <= after[b].metadata.storage_start
    } by {
        assert(after[a].metadata == before[a].metadata);
        assert(after[b].metadata == before[b].metadata);
        assert(same_family(before, a, b) == same_family(after, a, b));
    }
    assert forall|g: int, i: nat| 0 <= g < after.len() && i < 32 implies (
    #[trigger] crate::masks::bit32(after[g].metadata.skip_mask.0, i) <==> !(g <= i && i
        < after.len() && same_family(after, g, i as int))) by {
        assert(after[g].metadata == before[g].metadata);
        assert(crate::masks::bit32(before[g].metadata.skip_mask.0, i) <==> !(g <= i && i
            < before.len() && same_family(before, g, i as int)));
        if i < before.len() {
            assert(after[i as int].metadata == before[i as int].metadata);
        }
    }
}

/// Whether `entity` is held by every storage of the family that starts at
/// storage `start` whose bit `mask` holds.
pub open spec fn holds_all_of<T>(
    sets: Seq<SparseSetView<T>>,
    start: int,
    mask: crate::masks::StorageMask,
    entity: Entity,
) -> bool {
    forall|bit: nat| #[trigger] mask.has(bit) ==> sets[start + bit].contains(entity)
}

/// Under the group discipline, membership in a group is what the masks of
/// the group say. An entity sits among the grouped entities of a storage of
/// the group exactly if it is held by every storage of the group's include
/// mask. And in a group that extends an earlier one, an entity is grouped in
/// the earlier group but not in this one exactly if it is held by every
/// storage that the exclude mask includes and not by all those that the
/// exclude mask excludes.
pub proof fn lemma_membership_matches_masks<T>(
    sets: Seq<SparseSetView<T>>,
    groups: Seq<Group>,
    g: int,
    j: int,
    entity: Entity,
)
    requires
        disciplined(sets, groups),
        0 <= g < groups.len(),
        groups[g].start() <= j < groups[g].end(),
    ensures
        in_prefix(sets[j], groups[g].len, entity) <==> holds_all_of(
            sets,
            groups[g].start(),
            groups[g].metadata.include_mask.included,
            entity,
        ),
        groups[g].fresh() > groups[g].start() && j < groups[g].fresh() ==> g > 0 && ((in_prefix(
            sets[j],
            groups[g - 1].len,
            entity,
        ) && !in_prefix(sets[j], groups[g].len, entity)) <==> (holds_all_of(
            sets,
            groups[g].start(),
            groups[g].metadata.exclude_mask.included,
            entity,
        ) && !holds_all_of(
            sets,
            groups[g].start(),
            groups[g].metadata.exclude_mask.excluded,
            entity,
        ))),
{
    let group = groups[g];
    let start = group.start();
    let arity = (group.end() - start) as nat;
    let fresh = (group.fresh() - start) as nat;
    assert(group_wf(groups, g, sets.len()));
    assert(exact(sets, group, entity));
    let included = group.metadata.include_mask.included;
    assert(in_all(sets, start, group.end(), entity) <==> holds_all_of(
        sets,
        start,
        included,
        entity,
    )) by {
        if in_all(sets, start, group.end(), entity) {
            assert forall|bit: nat| #[trigger] included.has(bit) implies sets[start
                + bit].contains(entity) by {
                crate::masks::lemma_range16(0, arity, bit);
            }
        }
        if holds_all_of(sets, start, included, entity) {
            assert forall|k: int| start <= k < group.end() implies (#[trigger] sets[k]).contains(
                entity,
            ) by {
                let bit = (k - start) as nat;
                crate::masks::lemma_range16(0, arity, bit);
                assert(included.has(bit));
            }
        }
    }
    if group.fresh() > start && j < group.fresh() {
        let earlier = groups[g - 1];
        assert(group_wf(groups, g - 1, sets.len()));
        assert(exact(sets, earlier, entity));
        let kept = group.metadata.exclude_mask.included;
        let dropped = group.metadata.exclude_mask.excluded;
        assert(in_all(sets, start, earlier.end(), entity) <==> holds_all_of(
            sets,
            start,
            kept,
            entity,
        )) by {
            if in_all(sets, start, earlier.end(), entity) {
                assert forall|bit: nat| #[trigger] kept.has(bit) implies sets[start
                    + bit].contains(entity) by {
                    crate::masks::lemma_range16(0, fresh, bit);
                }
            }
            if holds_all_of(sets, start, kept, entity) {
                assert forall|k: int| start <= k < earlier.end() implies (
                #[trigger] sets[k]).contains(entity) by {
                    let bit = (k - start) as nat;
                    crate::masks::lemma_range16(0, fresh, bit);
                    assert(kept.has(bit));
                }
            }
        }
        assert(in_all(sets, group.fresh(), group.end(), entity) <==> holds_all_of(
            sets,
            start,
            dropped,
            entity,
        )) by {
            if in_all(sets, group.fresh(), group.end(), entity) {
                assert forall|bit: nat| #[trigger] dropped.has(bit) implies sets[start
                    + bit].contains(entity) by {
                    crate::masks::lemma_range16(fresh, arity, bit);
                }
            }
            if holds_all_of(sets, start, dropped, entity) {
                assert forall|k: int| group.fresh() <= k < group.end() implies (
                #[trigger] sets[k]).contains(entity) by {
                    let bit = (k - start) as nat;
                    crate::masks::lemma_range16(fresh, arity, bit);
                    assert(dropped.has(bit));
                }
            }
        }
        assert(in_all(sets, start, group.end(), entity) <==> (in_all(
            sets,
            start,
            earlier.end(),
            entity,
        ) && in_all(sets, group.fresh(), group.end(), entity))) by {
            if in_all(sets, start, group.end(), entity) {
                assert forall|k: int| start <= k < earlier.end() implies (
                #[trigger] sets[k]).contains(entity) by {}
                assert forall|k: int| group.fresh() <= k < group.end() implies (
                #[trigger] sets[k]).contains(entity) by {}
            }
            if in_all(sets, start, earlier.end(), entity) && in_all(
                sets,
                group.fresh(),
                group.end(),
                entity,
            ) {
                assert forall|k: int| start <= k < group.end() implies (
                #[trigger] sets[k]).contains(entity) by {
                    if k < earlier.end() {
                        assert(sets[k].contains(entity));
                    } else {
                        assert(sets[k].contains(entity));
                    }
                }
            }
        }
    }
}

} // verus!
