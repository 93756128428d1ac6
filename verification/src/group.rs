//! Groups: families of component storages kept co-sorted, so that the
//! entities which hold every component of a group sit, in the same order, at
//! the front of each of the group's storages.

use vstd::prelude::*;
use crate::entity::Entity;
use crate::masks::{bit32, lemma_ops32, range16, GroupMask, QueryMask, StorageMask};
use crate::sparse_set::{swapped, ComponentSparseSet, SparseSetView};

verus! {

/// What is fixed about a group once the storage is laid out.
#[derive(Clone, Copy, PartialEq, Eq, Structural, Debug)]
pub struct GroupMetadata {
    /// First storage of the group's family.
    pub storage_start: usize,
    /// First storage that this group adds to those of the family's previous
    /// group; equal to `storage_start` for the first group of a family.
    pub new_storage_start: usize,
    /// One past the last storage of the group.
    pub storage_end: usize,
    /// Every group but this one and those that follow it in its family.
    pub skip_mask: GroupMask,
    /// Mask of a query that matches the group: all its storages included.
    pub include_mask: QueryMask,
    /// Mask of a query that matches the family's previous group without this
    /// group: the previous group's storages included, the new ones excluded.
    pub exclude_mask: QueryMask,
}

/// A group: its fixed metadata and the number of entities grouped in it.
#[derive(Clone, Copy, PartialEq, Eq, Structural, Debug)]
pub struct Group {
    /// The fixed part.
    pub metadata: GroupMetadata,
    /// Number of entities that hold every component of the group.
    pub len: usize,
}

impl Group {
    /// First storage of the group.
    pub open spec fn start(self) -> int {
        self.metadata.storage_start as int
    }

    /// First storage that the group adds to its family's previous group.
    pub open spec fn fresh(self) -> int {
        self.metadata.new_storage_start as int
    }

    /// One past the last storage of the group.
    pub open spec fn end(self) -> int {
        self.metadata.storage_end as int
    }

    /// The same group with `len` entities.
    pub open spec fn with_len(self, len: usize) -> Group {
        Group { metadata: self.metadata, len }
    }
}

/// Where an entity stands with respect to a group.
#[derive(Clone, Copy, PartialEq, Eq, Structural, Debug)]
pub enum GroupStatus {
    /// The entity lacks a component of the group.
    Incomplete,
    /// The entity holds the group's components but is not among the grouped
    /// entities.
    Ungrouped,
    /// The entity is among the grouped entities.
    Grouped,
}

/// Whether two groups belong to the same family.
pub open spec fn same_family(groups: Seq<Group>, a: int, b: int) -> bool {
    groups[a].metadata.storage_start == groups[b].metadata.storage_start
}

/// Whether `entity` sits in the first `len` dense slots of `set`.
pub open spec fn in_prefix<T>(set: SparseSetView<T>, len: usize, entity: Entity) -> bool {
    set.index_of(entity) matches Some(d) && d < len
}

/// Whether every storage in `start..end` holds `entity`.
pub open spec fn in_all<T>(
    sets: Seq<SparseSetView<T>>,
    start: int,
    end: int,
    entity: Entity,
) -> bool {
    forall|j: int| start <= j < end ==> (#[trigger] sets[j]).contains(entity)
}

/// The layout of the groups over `count` storages is consistent: families
/// follow one another, each group of a family extends the previous one, and
/// the masks kept with each group say what its place in the family is.
pub open spec fn layout_wf(groups: Seq<Group>, count: nat) -> bool {
    &&& groups.len() <= 32
    &&& forall|g: int| 0 <= g < groups.len() ==> group_wf(groups, g, count)
    &&& forall|a: int, b: int|
        0 <= a < b < groups.len() ==> if same_family(groups, a, b) {
            (#[trigger] groups[a]).metadata.storage_end <= (#[trigger] groups[b]).metadata.new_storage_start
        } else {
            groups[a].metadata.storage_end <= groups[b].metadata.storage_start
        }
    &&& forall|g: int, i: nat|
        0 <= g < groups.len() && i < 32 ==> (#[trigger] bit32(groups[g].metadata.skip_mask.0, i)
            <==> !(g <= i && i < groups.len() && same_family(groups, g, i as int)))
}

/// The metadata of group `g` is consistent with its place among `groups`,
/// over `count` storages.
pub open spec fn group_wf(groups: Seq<Group>, g: int, count: nat) -> bool {
    &&& groups[g].metadata.storage_start <= groups[g].metadata.new_storage_start
    &&& groups[g].metadata.new_storage_start < groups[g].metadata.storage_end
    &&& groups[g].metadata.storage_end <= count
    &&& groups[g].metadata.storage_end - groups[g].metadata.storage_start <= 16
    &&& groups[g].metadata.include_mask == QueryMask {
        included: StorageMask(
            range16(
                0,
                (groups[g].metadata.storage_end - groups[g].metadata.storage_start) as nat,
            ),
        ),
        excluded: StorageMask(0),
    }
    &&& groups[g].metadata.exclude_mask == QueryMask {
        included: StorageMask(
            range16(
                0,
                (groups[g].metadata.new_storage_start - groups[g].metadata.storage_start) as nat,
            ),
        ),
        excluded: StorageMask(
            range16(
                (groups[g].metadata.new_storage_start - groups[g].metadata.storage_start) as nat,
                (groups[g].metadata.storage_end - groups[g].metadata.storage_start) as nat,
            ),
        ),
    }
    &&& groups[g].metadata.new_storage_start > groups[g].metadata.storage_start ==> g > 0
        && same_family(groups, g - 1, g) && groups[g - 1].metadata.storage_end
        == groups[g].metadata.new_storage_start
}

/// The first `group.len` dense slots of every storage of the group hold the
/// same entities in the same order.
pub open spec fn sorted<T>(sets: Seq<SparseSetView<T>>, group: Group) -> bool {
    &&& forall|j: int|
        group.start() <= j < group.end() ==> group.len <= (#[trigger] sets[j]).entities.len()
    &&& forall|j: int, i: int|
        group.start() <= j < group.end() && 0 <= i < group.len ==> (#[trigger] sets[j].entities[i])
            == sets[group.start()].entities[i]
}

/// `entity` sits among the grouped entities of a storage of the group
/// exactly if every storage of the group holds it.
pub open spec fn exact<T>(sets: Seq<SparseSetView<T>>, group: Group, entity: Entity) -> bool {
    forall|j: int|
        group.start() <= j < group.end() ==> (in_prefix(#[trigger] sets[j], group.len, entity)
            <==> in_all(sets, group.start(), group.end(), entity))
}

/// `entity` sits among the grouped entities of a storage of the group only
/// if every storage of the group holds it.
pub open spec fn sound<T>(sets: Seq<SparseSetView<T>>, group: Group, entity: Entity) -> bool {
    forall|j: int|
        group.start() <= j < group.end() ==> (in_prefix(#[trigger] sets[j], group.len, entity)
            ==> in_all(sets, group.start(), group.end(), entity))
}

/// `entity` sits among the grouped entities of no storage of the group.
pub open spec fn outside<T>(sets: Seq<SparseSetView<T>>, group: Group, entity: Entity) -> bool {
    forall|j: int|
        group.start() <= j < group.end() ==> !in_prefix(#[trigger] sets[j], group.len, entity)
}

/// What holds of the storages and groups whatever is going on with
/// `entity`: every set is well-formed, the layout is consistent, every group
/// is sorted, the groups of a family are nested, and every entity other than
/// `entity` is grouped exactly where it should be.
pub open spec fn settled_but<T>(
    sets: Seq<SparseSetView<T>>,
    groups: Seq<Group>,
    entity: Entity,
) -> bool {
    &&& forall|j: int| 0 <= j < sets.len() ==> (#[trigger] sets[j]).wf()
    &&& layout_wf(groups, sets.len())
    &&& forall|g: int| 0 <= g < groups.len() ==> sorted(sets, #[trigger] groups[g])
    &&& forall|a: int, b: int|
        0 <= a < b < groups.len() && same_family(groups, a, b) ==> (#[trigger] groups[b]).len
            <= (#[trigger] groups[a]).len
    &&& forall|g: int, other: Entity|
        0 <= g < groups.len() && other != entity ==> #[trigger] exact(sets, groups[g], other)
}

/// The group discipline: every set is well-formed, the layout is consistent,
/// and for every group the first `len` dense slots of its storages hold, in
/// the same order, exactly the entities that every storage of the group
/// holds.
pub open spec fn disciplined<T>(sets: Seq<SparseSetView<T>>, groups: Seq<Group>) -> bool {
    &&& forall|j: int| 0 <= j < sets.len() ==> (#[trigger] sets[j]).wf()
    &&& layout_wf(groups, sets.len())
    &&& forall|g: int| 0 <= g < groups.len() ==> sorted(sets, #[trigger] groups[g])
    &&& forall|a: int, b: int|
        0 <= a < b < groups.len() && same_family(groups, a, b) ==> (#[trigger] groups[b]).len
            <= (#[trigger] groups[a]).len
    &&& forall|g: int, entity: Entity|
        0 <= g < groups.len() ==> #[trigger] exact(sets, groups[g], entity)
}

/// The standing of `entity` with respect to `group`, read from the storages
/// that the group adds to its family's previous group.
pub open spec fn status_of<T>(
    sets: Seq<SparseSetView<T>>,
    group: Group,
    entity: Entity,
) -> GroupStatus {
    if !in_all(sets, group.fresh(), group.end(), entity) {
        GroupStatus::Incomplete
    } else if in_prefix(sets[group.fresh()], group.len, entity) {
        GroupStatus::Grouped
    } else {
        GroupStatus::Ungrouped
    }
}

/// The storages after `entity` has been swapped to dense position `target`
/// in each of the storages `start..end` that holds it.
pub open spec fn moved_to<T>(
    sets: Seq<SparseSetView<T>>,
    start: int,
    end: int,
    entity: Entity,
    target: int,
) -> Seq<SparseSetView<T>> {
    Seq::new(
        sets.len(),
        |j: int|
            if start <= j < end {
                match sets[j].index_of(entity) {
                    Some(d) => sets[j].swap(d as int, target),
                    None => sets[j],
                }
            } else {
                sets[j]
            },
    )
}

/// The storages, the groups and the mask of a pass in progress.
pub struct PassState<T> {
    /// The storages.
    pub sets: Seq<SparseSetView<T>>,
    /// The groups.
    pub groups: Seq<Group>,
    /// The groups still to visit.
    pub mask: GroupMask,
}

/// One step of the group pass for `entity`, at group `index`. A group held
/// by the mask takes the entity in if the entity holds all its components
/// and is not grouped yet, by swapping it to the first slot after the grouped
/// entities; a group that the entity does not complete strikes itself and the
/// later groups of its family from the mask. A group not held by the mask is
/// passed over.
pub open spec fn group_step<T>(state: PassState<T>, entity: Entity, index: nat) -> PassState<T> {
    let group = state.groups[index as int];
    if !state.mask.has(index) {
        state
    } else {
        match status_of(state.sets, group, entity) {
            GroupStatus::Incomplete => PassState {
                sets: state.sets,
                groups: state.groups,
                mask: GroupMask(state.mask.0 & group.metadata.skip_mask.0),
            },
            GroupStatus::Grouped => state,
            GroupStatus::Ungrouped => PassState {
                sets: moved_to(state.sets, group.start(), group.end(), entity, group.len as int),
                groups: state.groups.update(index as int, group.with_len((group.len + 1) as usize)),
                mask: state.mask,
            },
        }
    }
}

/// The state after the group pass for `entity` has gone, in ascending order,
/// through `count` groups starting with group `from`.
pub open spec fn grouped_from<T>(
    state: PassState<T>,
    entity: Entity,
    from: nat,
    count: nat,
) -> PassState<T>
    decreases count,
{
    if count == 0 {
        state
    } else {
        grouped_from(group_step(state, entity, from), entity, from + 1, (count - 1) as nat)
    }
}

/// One step of the ungroup pass for `entity`, at group `index`. A group held
/// by the mask lets the entity go if it is grouped there, by swapping it to
/// the last grouped slot and shrinking the group by one.
pub open spec fn ungroup_step<T>(state: PassState<T>, entity: Entity, index: nat) -> PassState<T> {
    let group = state.groups[index as int];
    if state.mask.has(index) && status_of(state.sets, group, entity) == GroupStatus::Grouped {
        PassState {
            sets: moved_to(state.sets, group.start(), group.end(), entity, group.len - 1),
            groups: state.groups.update(index as int, group.with_len((group.len - 1) as usize)),
            mask: state.mask,
        }
    } else {
        state
    }
}

/// The state after the ungroup pass for `entity` has gone, in descending
/// order, through the groups below `below`.
pub open spec fn ungrouped_below<T>(
    state: PassState<T>,
    entity: Entity,
    below: nat,
) -> PassState<T>
    decreases below,
{
    if below == 0 {
        state
    } else {
        ungrouped_below(ungroup_step(state, entity, (below - 1) as nat), entity, (below - 1) as nat)
    }
}

/// Dense position of `other` in storage `j` after `entity` has been swapped
/// to `target` in the storages `start..end`.
pub open spec fn moved_position<T>(
    sets: Seq<SparseSetView<T>>,
    start: int,
    end: int,
    entity: Entity,
    target: int,
    j: int,
    other: Entity,
) -> Option<usize> {
    if start <= j < end && sets[j].index_of(entity) is Some {
        match sets[j].index_of(other) {
            Some(d) => Some(swapped(d, sets[j].index_of(entity)->0, target as usize)),
            None => None,
        }
    } else {
        sets[j].index_of(other)
    }
}

/// Swapping an entity to a target slot in a range of storages keeps every
/// set well-formed, keeps every set's entities, and moves only the entity
/// and the one it trades places with.
pub proof fn lemma_moved_basic<T>(
    sets: Seq<SparseSetView<T>>,
    start: int,
    end: int,
    entity: Entity,
    target: int,
)
    requires
        0 <= start <= end <= sets.len(),
        forall|j: int| 0 <= j < sets.len() ==> (#[trigger] sets[j]).wf(),
        0 <= target,
        forall|j: int| start <= j < end ==> target < (#[trigger] sets[j]).entities.len(),
    ensures
        moved_to(sets, start, end, entity, target).len() == sets.len(),
        forall|j: int|
            0 <= j < sets.len() ==> (#[trigger] moved_to(sets, start, end, entity, target)[j]).wf()
                && moved_to(sets, start, end, entity, target)[j].entities.len()
                == sets[j].entities.len(),
        forall|j: int, other: Entity|
            0 <= j < sets.len() ==> #[trigger] moved_to(sets, start, end, entity, target)[j].index_of(
                other,
            ) == moved_position(sets, start, end, entity, target, j, other),
        forall|j: int, other: Entity|
            0 <= j < sets.len() ==> #[trigger] moved_to(sets, start, end, entity, target)[j].contains(
                other,
            ) == sets[j].contains(other),
        forall|j: int|
            0 <= j < sets.len() && !(start <= j < end) ==> #[trigger] moved_to(
                sets,
                start,
                end,
                entity,
                target,
            )[j] == sets[j],
        forall|j: int|
            0 <= j < sets.len() ==> (#[trigger] moved_to(sets, start, end, entity, target)[j]).same_content(
                sets[j],
            ),
{
    let after = moved_to(sets, start, end, entity, target);
    assert forall|j: int| 0 <= j < sets.len() implies (#[trigger] after[j]).wf()
        && after[j].entities.len() == sets[j].entities.len() by {
        if start <= j < end {
            if let Some(d) = sets[j].index_of(entity) {
                sets[j].lemma_index_of(entity, 0);
                sets[j].lemma_swap_wf(d as int, target);
            }
        }
    }
    assert forall|j: int, other: Entity| 0 <= j < sets.len() implies (#[trigger] after[j].index_of(
        other,
    )) == moved_position(sets, start, end, entity, target, j, other) && after[j].contains(other)
        == sets[j].contains(other) && after[j].slot_of(other) == sets[j].slot_of(other) by {
        if start <= j < end {
            if let Some(d) = sets[j].index_of(entity) {
                sets[j].lemma_index_of(entity, 0);
                sets[j].lemma_swap_index_of(d, target as usize, other);
            }
        }
    }
    assert forall|j: int| 0 <= j < sets.len() implies (#[trigger] after[j]).same_content(
        sets[j],
    ) by {
        assert forall|other: Entity| #[trigger] after[j].slot_of(other) == sets[j].slot_of(other) by {
            assert(after[j].index_of(other) == moved_position(
                sets,
                start,
                end,
                entity,
                target,
                j,
                other,
            ));
        }
    }
}

/// Swapping an entity to a target slot changes which storages hold which
/// entity nowhere.
pub proof fn lemma_moved_in_all<T>(
    sets: Seq<SparseSetView<T>>,
    start: int,
    end: int,
    entity: Entity,
    target: int,
    a: int,
    b: int,
    other: Entity,
)
    requires
        0 <= start <= end <= sets.len(),
        0 <= a <= b <= sets.len(),
        forall|j: int| 0 <= j < sets.len() ==> (#[trigger] sets[j]).wf(),
        0 <= target,
        forall|j: int| start <= j < end ==> target < (#[trigger] sets[j]).entities.len(),
    ensures
        in_all(moved_to(sets, start, end, entity, target), a, b, other) == in_all(
            sets,
            a,
            b,
            other,
        ),
{
    lemma_moved_basic(sets, start, end, entity, target);
    let after = moved_to(sets, start, end, entity, target);
    if in_all(sets, a, b, other) {
        assert forall|j: int| a <= j < b implies (#[trigger] after[j]).contains(other) by {
            assert(sets[j].contains(other));
            assert(after[j].contains(other) == sets[j].contains(other));
        }
    }
    if in_all(after, a, b, other) {
        assert forall|j: int| a <= j < b implies (#[trigger] sets[j]).contains(other) by {
            assert(after[j].contains(other));
            assert(after[j].contains(other) == sets[j].contains(other));
        }
    }
}

/// How a move of `entity` to `target` in the storages `start..end` lies
/// with respect to a group: the move touches none of the group's storages,
/// or it stays beyond the group's grouped entities in the storages it
/// touches, or it covers all the group's storages and stays within the
/// grouped entities.
pub open spec fn move_spares<T>(
    sets: Seq<SparseSetView<T>>,
    start: int,
    end: int,
    entity: Entity,
    target: int,
    group: Group,
) -> bool {
    ||| group.end() <= start
    ||| end <= group.start()
    ||| (target >= group.len && forall|j: int|
        start <= j < end && group.start() <= j < group.end() ==> !in_prefix(
            #[trigger] sets[j],
            group.len,
            entity,
        ))
    ||| (start <= group.start() && group.end() <= end && target < group.len && forall|j: int|
        group.start() <= j < group.end() ==> in_prefix(#[trigger] sets[j], group.len, entity))
}

/// A move that spares a group leaves the group sorted and leaves every
/// entity on the side of the group's boundary it was on.
pub proof fn lemma_moved_keeps_group<T>(
    sets: Seq<SparseSetView<T>>,
    start: int,
    end: int,
    entity: Entity,
    target: int,
    group: Group,
)
    requires
        0 <= start <= end <= sets.len(),
        0 <= target,
        forall|j: int| 0 <= j < sets.len() ==> (#[trigger] sets[j]).wf(),
        forall|j: int| start <= j < end ==> target < (#[trigger] sets[j]).entities.len(),
        0 <= group.start() < group.end() <= sets.len(),
        sorted(sets, group),
        move_spares(sets, start, end, entity, target, group),
    ensures
        sorted(moved_to(sets, start, end, entity, target), group),
        forall|j: int, other: Entity|
            group.start() <= j < group.end() ==> #[trigger] in_prefix(
                moved_to(sets, start, end, entity, target)[j],
                group.len,
                other,
            ) == in_prefix(sets[j], group.len, other),
{
    let after = moved_to(sets, start, end, entity, target);
    lemma_moved_basic(sets, start, end, entity, target);
    let first = group.start();
    let len = group.len;
    assert forall|j: int, other: Entity| group.start() <= j < group.end() implies #[trigger] in_prefix(
        after[j],
        group.len,
        other,
    ) == in_prefix(sets[j], group.len, other) by {
        assert(after[j].index_of(other) == moved_position(
            sets,
            start,
            end,
            entity,
            target,
            j,
            other,
        ));
        if start <= j < end {
            assert(in_prefix(sets[j], len, entity) || !in_prefix(sets[j], len, entity));
        }
    }
    assert forall|j: int| group.start() <= j < group.end() implies group.len <= (
    #[trigger] after[j]).entities.len() by {
        assert(sets[j].wf());
    }
    assert forall|j: int, i: int|
        group.start() <= j < group.end() && 0 <= i < group.len implies (
    #[trigger] after[j].entities[i]) == after[first].entities[i] by {
        assert(sets[j].entities[i] == sets[first].entities[i]);
        assert(sets[j].wf());
        assert(sets[first].wf());
        if start <= j < end && group.start() <= j < group.end() {
            assert(in_prefix(sets[j], len, entity) || !in_prefix(sets[j], len, entity));
        }
        if start <= first < end {
            assert(in_prefix(sets[first], len, entity) || !in_prefix(sets[first], len, entity));
        }
        if start <= first && group.end() <= end && target < len && in_prefix(
            sets[j],
            len,
            entity,
        ) && in_prefix(sets[first], len, entity) {
            let p = sets[j].index_of(entity)->0;
            let q = sets[first].index_of(entity)->0;
            sets[j].lemma_index_of(entity, p as int);
            sets[first].lemma_index_of(entity, q as int);
            assert(sets[j].entities[p as int] == sets[first].entities[p as int]);
            sets[first].lemma_index_of(entity, p as int);
            assert(p == q);
            assert(sets[j].entities[target] == sets[first].entities[target]);
        } else {
            sets[j].lemma_index_of(entity, 0);
            sets[first].lemma_index_of(entity, 0);
        }
    }
}

/// Changing the number of grouped entities of one group changes nothing in
/// the layout.
pub proof fn lemma_layout_keeps(groups: Seq<Group>, index: int, len: usize, count: nat)
    requires
        layout_wf(groups, count),
        0 <= index < groups.len(),
    ensures
        layout_wf(groups.update(index, groups[index].with_len(len)), count),
        forall|a: int, b: int|
            0 <= a < groups.len() && 0 <= b < groups.len() ==> #[trigger] same_family(
                groups.update(index, groups[index].with_len(len)),
                a,
                b,
            ) == same_family(groups, a, b),
{
    let after = groups.update(index, groups[index].with_len(len));
    assert forall|g: int| 0 <= g < after.len() implies after[g].metadata
        == groups[g].metadata by {}
    assert forall|g: int| 0 <= g < after.len() implies group_wf(after, g, count) by {
        assert(group_wf(groups, g, count));
        assert(after[g].metadata == groups[g].metadata);
        if g > 0 {
            assert(after[g - 1].metadata == groups[g - 1].metadata);
        }
    }
    assert forall|a: int, b: int| 0 <= a < b < after.len() implies if same_family(after, a, b) {
        (#[trigger] after[a]).metadata.storage_end <= (#[trigger] after[b]).metadata.new_storage_start
    } else {
        after[a].metadata.storage_end <= after[b].metadata.storage_start
    } by {
        assert(after[a].metadata == groups[a].metadata);
        assert(after[b].metadata == groups[b].metadata);
        assert(same_family(groups, a, b) == same_family(after, a, b));
    }
    assert forall|g: int, i: nat| 0 <= g < after.len() && i < 32 implies (#[trigger] bit32(
        after[g].metadata.skip_mask.0,
        i,
    ) <==> !(g <= i && i < after.len() && same_family(after, g, i as int))) by {
        assert(after[g].metadata == groups[g].metadata);
        assert(bit32(groups[g].metadata.skip_mask.0, i) <==> !(g <= i && i < groups.len()
            && same_family(groups, g, i as int)));
        if i < groups.len() {
            assert(after[i as int].metadata == groups[i as int].metadata);
        }
    }
}

/// If a change leaves an entity on the side of a group's boundary it was
/// on in each of the group's storages, and leaves alone which storages
/// hold the entity, the entity's standing in the group is what it was.
pub proof fn lemma_marks_kept<T>(
    sets: Seq<SparseSetView<T>>,
    after: Seq<SparseSetView<T>>,
    group: Group,
    entity: Entity,
)
    requires
        forall|j: int|
            group.start() <= j < group.end() ==> in_prefix(#[trigger] after[j], group.len, entity)
                == in_prefix(sets[j], group.len, entity),
        in_all(after, group.start(), group.end(), entity) == in_all(
            sets,
            group.start(),
            group.end(),
            entity,
        ),
    ensures
        exact(after, group, entity) == exact(sets, group, entity),
        sound(after, group, entity) == sound(sets, group, entity),
        outside(after, group, entity) == outside(sets, group, entity),
{
    assert forall|j: int| group.start() <= j < group.end() implies in_prefix(
        #[trigger] sets[j],
        group.len,
        entity,
    ) == in_prefix(after[j], group.len, entity) by {
        assert(in_prefix(after[j], group.len, entity) == in_prefix(sets[j], group.len, entity));
    }
}

/// A move of an entity within the storages of one group, which spares every
/// other group, leaves every other group sorted and leaves the standing of
/// every entity in every other group as it was.
pub proof fn lemma_move_others<T>(
    sets: Seq<SparseSetView<T>>,
    groups: Seq<Group>,
    entity: Entity,
    index: int,
    target: int,
)
    requires
        settled_but(sets, groups, entity),
        0 <= index < groups.len(),
        0 <= target,
        forall|j: int|
            groups[index].start() <= j < groups[index].end() ==> target < (
            #[trigger] sets[j]).entities.len(),
        forall|h: int|
            0 <= h < groups.len() && h != index ==> move_spares(
                sets,
                groups[index].start(),
                groups[index].end(),
                entity,
                target,
                #[trigger] groups[h],
            ),
    ensures
        forall|h: int|
            0 <= h < groups.len() && h != index ==> sorted(
                moved_to(sets, groups[index].start(), groups[index].end(), entity, target),
                #[trigger] groups[h],
            ),
        forall|h: int, other: Entity|
            0 <= h < groups.len() && h != index ==> (#[trigger] exact(
                moved_to(sets, groups[index].start(), groups[index].end(), entity, target),
                groups[h],
                other,
            )) == exact(sets, groups[h], other),
        forall|h: int, other: Entity|
            0 <= h < groups.len() && h != index ==> (#[trigger] sound(
                moved_to(sets, groups[index].start(), groups[index].end(), entity, target),
                groups[h],
                other,
            )) == sound(sets, groups[h], other),
        forall|h: int, other: Entity|
            0 <= h < groups.len() && h != index ==> (#[trigger] outside(
                moved_to(sets, groups[index].start(), groups[index].end(), entity, target),
                groups[h],
                other,
            )) == outside(sets, groups[h], other),
{
    let start = groups[index].start();
    let end = groups[index].end();
    let after = moved_to(sets, start, end, entity, target);
    assert(group_wf(groups, index, sets.len()));
    assert forall|h: int| 0 <= h < groups.len() && h != index implies sorted(
        after,
        #[trigger] groups[h],
    ) && (forall|other: Entity|
        exact(after, groups[h], other) == exact(sets, groups[h], other) && sound(
            after,
            groups[h],
            other,
        ) == sound(sets, groups[h], other) && outside(after, groups[h], other) == outside(
            sets,
            groups[h],
            other,
        )) by {
        assert(group_wf(groups, h, sets.len()));
        assert(sorted(sets, groups[h]));
        lemma_moved_keeps_group(sets, start, end, entity, target, groups[h]);
        assert forall|other: Entity|
            exact(after, groups[h], other) == exact(sets, groups[h], other) && sound(
                after,
                groups[h],
                other,
            ) == sound(sets, groups[h], other) && outside(after, groups[h], other) == outside(
                sets,
                groups[h],
                other,
            ) by {
            lemma_moved_in_all(
                sets,
                start,
                end,
                entity,
                target,
                groups[h].start(),
                groups[h].end(),
                other,
            );
            lemma_marks_kept(sets, after, groups[h], other);
        }
    }
}

/// Taking an entity into a group: when the entity holds every component of
/// the group, is grouped in the earlier groups of the family and not in this
/// one, swapping it to the first slot after the grouped entities in each of
/// the group's storages and growing the group by one restores the group and
/// disturbs no other.
pub proof fn lemma_promote<T>(
    sets: Seq<SparseSetView<T>>,
    groups: Seq<Group>,
    entity: Entity,
    index: int,
)
    requires
        settled_but(sets, groups, entity),
        0 <= index < groups.len(),
        in_all(sets, groups[index].start(), groups[index].end(), entity),
        outside(sets, groups[index], entity),
        forall|a: int|
            0 <= a < index && same_family(groups, a, index) ==> exact(
                sets,
                #[trigger] groups[a],
                entity,
            ),
    ensures
        groups[index].len < usize::MAX,
        forall|j: int|
            groups[index].start() <= j < groups[index].end() ==> groups[index].len < (
            #[trigger] sets[j]).entities.len(),
        settled_but(
            moved_to(
                sets,
                groups[index].start(),
                groups[index].end(),
                entity,
                groups[index].len as int,
            ),
            groups.update(index, groups[index].with_len((groups[index].len + 1) as usize)),
            entity,
        ),
        exact(
            moved_to(
                sets,
                groups[index].start(),
                groups[index].end(),
                entity,
                groups[index].len as int,
            ),
            groups[index].with_len((groups[index].len + 1) as usize),
            entity,
        ),
        forall|h: int|
            0 <= h < groups.len() && h != index ==> (#[trigger] exact(
                moved_to(
                    sets,
                    groups[index].start(),
                    groups[index].end(),
                    entity,
                    groups[index].len as int,
                ),
                groups[h],
                entity,
            )) == exact(sets, groups[h], entity),
        forall|h: int|
            0 <= h < groups.len() && h != index ==> (#[trigger] sound(
                moved_to(
                    sets,
                    groups[index].start(),
                    groups[index].end(),
                    entity,
                    groups[index].len as int,
                ),
                groups[h],
                entity,
            )) == sound(sets, groups[h], entity),
{
    let group = groups[index];
    let start = group.start();
    let end = group.end();
    let len = group.len;
    let target = len as int;
    let after = moved_to(sets, start, end, entity, target);
    let grown = group.with_len((len + 1) as usize);
    let groups2 = groups.update(index, grown);
    assert(group_wf(groups, index, sets.len()));
    assert(sorted(sets, group));
    // The entity sits beyond the grouped entities in every storage of the group.
    assert forall|j: int| start <= j < end implies len < (#[trigger] sets[j]).entities.len() by {
        assert(sets[j].contains(entity));
        assert(!in_prefix(sets[j], len, entity));
        sets[j].lemma_index_of(entity, 0);
    }
    assert(len < sets[start].entities.len());
    // Every other group is spared.
    assert forall|h: int| 0 <= h < groups.len() && h != index implies move_spares(
        sets,
        start,
        end,
        entity,
        target,
        #[trigger] groups[h],
    ) by {
        assert(group_wf(groups, h, sets.len()));
        if h < index {
            if same_family(groups, h, index) {
                assert(groups[h].metadata.storage_end <= groups[index].metadata.new_storage_start);
                assert(exact(sets, groups[h], entity));
                assert(in_all(sets, groups[h].start(), groups[h].end(), entity)) by {
                    assert forall|j: int| groups[h].start() <= j < groups[h].end() implies (
                    #[trigger] sets[j]).contains(entity) by {}
                }
                assert forall|j: int| groups[h].start() <= j < groups[h].end() implies in_prefix(
                    #[trigger] sets[j],
                    groups[h].len,
                    entity,
                ) by {}
                assert(in_prefix(sets[start], groups[h].len, entity));
                assert(!in_prefix(sets[start], len, entity));
                assert(target < groups[h].len);
            } else {
                assert(groups[h].metadata.storage_end <= groups[index].metadata.storage_start);
            }
        } else {
            if same_family(groups, index, h) {
                assert(groups[h].len <= groups[index].len);
                assert forall|j: int|
                    start <= j < end && groups[h].start() <= j < groups[h].end() implies !in_prefix(
                    #[trigger] sets[j],
                    groups[h].len,
                    entity,
                ) by {
                    assert(!in_prefix(sets[j], len, entity));
                }
            } else {
                assert(groups[index].metadata.storage_end <= groups[h].metadata.storage_start);
            }
        }
    }
    lemma_moved_basic(sets, start, end, entity, target);
    lemma_move_others(sets, groups, entity, index, target);
    lemma_layout_keeps(groups, index, (len + 1) as usize, sets.len());
    // The group itself.
    assert(sorted(after, grown)) by {
        assert forall|j: int| start <= j < end implies grown.len <= (
        #[trigger] after[j]).entities.len() by {
            assert(len < sets[j].entities.len());
        }
        assert forall|j: int, i: int| start <= j < end && 0 <= i < grown.len implies (
        #[trigger] after[j].entities[i]) == after[start].entities[i] by {
            assert(sets[j].contains(entity));
            assert(sets[start].contains(entity));
            assert(!in_prefix(sets[j], len, entity));
            assert(!in_prefix(sets[start], len, entity));
            sets[j].lemma_index_of(entity, 0);
            sets[start].lemma_index_of(entity, 0);
            if i < len {
                assert(sets[j].entities[i] == sets[start].entities[i]);
            }
        }
    }
    assert forall|other: Entity| exact(after, grown, other) by {
        lemma_moved_in_all(sets, start, end, entity, target, start, end, other);
        assert forall|j: int| start <= j < end implies (in_prefix(
            #[trigger] after[j],
            grown.len,
            other,
        ) <==> in_all(after, start, end, other)) by {
            assert(after[j].index_of(other) == moved_position(
                sets,
                start,
                end,
                entity,
                target,
                j,
                other,
            ));
            assert(sets[j].contains(entity));
            assert(!in_prefix(sets[j], len, entity));
            sets[j].lemma_index_of(entity, 0);
            sets[j].lemma_index_of(other, 0);
            if other != entity {
                assert(exact(sets, groups[index], other));
                assert(in_prefix(sets[j], len, other) <==> in_all(sets, start, end, other));
            }
        }
    }
    assert forall|h: int| 0 <= h < groups2.len() implies sorted(after, #[trigger] groups2[h]) by {
        if h != index {
            assert(sorted(after, groups[h]));
        }
    }
    assert forall|a: int, b: int|
        0 <= a < b < groups2.len() && same_family(groups2, a, b) implies (
    #[trigger] groups2[b]).len <= (#[trigger] groups2[a]).len by {
        assert(same_family(groups, a, b));
        assert(groups[b].len <= groups[a].len);
        if b == index {
            assert(move_spares(sets, start, end, entity, target, groups[a]));
            assert(group_wf(groups, a, sets.len()));
            assert(groups[a].metadata.storage_end <= groups[index].metadata.new_storage_start);
        }
    }
    assert forall|h: int, other: Entity|
        0 <= h < groups2.len() && other != entity implies #[trigger] exact(
        after,
        groups2[h],
        other,
    ) by {
        if h != index {
            assert(exact(after, groups[h], other) == exact(sets, groups[h], other));
            assert(exact(sets, groups[h], other));
        }
    }
}

/// Letting an entity go from a group: when the entity is grouped in this
/// group and in none of the later groups of the family, swapping it to the
/// last grouped slot in each of the group's storages and shrinking the group
/// by one leaves the entity outside the group and disturbs no other group.
pub proof fn lemma_demote<T>(
    sets: Seq<SparseSetView<T>>,
    groups: Seq<Group>,
    entity: Entity,
    index: int,
)
    requires
        settled_but(sets, groups, entity),
        0 <= index < groups.len(),
        forall|j: int|
            groups[index].start() <= j < groups[index].end() ==> in_prefix(
                #[trigger] sets[j],
                groups[index].len,
                entity,
            ),
        forall|b: int|
            index < b < groups.len() && same_family(groups, index, b) ==> outside(
                sets,
                #[trigger] groups[b],
                entity,
            ),
    ensures
        groups[index].len > 0,
        settled_but(
            moved_to(
                sets,
                groups[index].start(),
                groups[index].end(),
                entity,
                groups[index].len - 1,
            ),
            groups.update(index, groups[index].with_len((groups[index].len - 1) as usize)),
            entity,
        ),
        outside(
            moved_to(
                sets,
                groups[index].start(),
                groups[index].end(),
                entity,
                groups[index].len - 1,
            ),
            groups[index].with_len((groups[index].len - 1) as usize),
            entity,
        ),
        forall|h: int|
            0 <= h < groups.len() && h != index ==> (#[trigger] exact(
                moved_to(
                    sets,
                    groups[index].start(),
                    groups[index].end(),
                    entity,
                    groups[index].len - 1,
                ),
                groups[h],
                entity,
            )) == exact(sets, groups[h], entity),
        forall|h: int|
            0 <= h < groups.len() && h != index ==> (#[trigger] outside(
                moved_to(
                    sets,
                    groups[index].start(),
                    groups[index].end(),
                    entity,
                    groups[index].len - 1,
                ),
                groups[h],
                entity,
            )) == outside(sets, groups[h], entity),
{
    let group = groups[index];
    let start = group.start();
    let end = group.end();
    let len = group.len;
    let target = len - 1;
    let after = moved_to(sets, start, end, entity, target);
    let shrunk = group.with_len((len - 1) as usize);
    let groups2 = groups.update(index, shrunk);
    assert(group_wf(groups, index, sets.len()));
    assert(sorted(sets, group));
    assert(in_prefix(sets[start], len, entity));
    let p = sets[start].index_of(entity)->0;
    assert(sets[start].wf());
    sets[start].lemma_index_of(entity, p as int);
    // The entity sits at the same grouped slot of every storage of the group.
    assert forall|j: int| start <= j < end implies (#[trigger] sets[j]).index_of(entity) == Some(
        p,
    ) && target < sets[j].entities.len() by {
        assert(in_prefix(sets[j], len, entity));
        assert(sets[j].wf());
        assert(sets[j].entities[p as int] == sets[start].entities[p as int]);
        sets[j].lemma_index_of(entity, p as int);
    }
    assert forall|h: int| 0 <= h < groups.len() && h != index implies move_spares(
        sets,
        start,
        end,
        entity,
        target,
        #[trigger] groups[h],
    ) by {
        assert(group_wf(groups, h, sets.len()));
        if h < index {
            if same_family(groups, h, index) {
                assert(groups[h].metadata.storage_end <= groups[index].metadata.new_storage_start);
                assert(groups[index].len <= groups[h].len);
                assert forall|j: int| groups[h].start() <= j < groups[h].end() implies in_prefix(
                    #[trigger] sets[j],
                    groups[h].len,
                    entity,
                ) by {
                    assert(in_prefix(sets[j], len, entity));
                }
            } else {
                assert(groups[h].metadata.storage_end <= groups[index].metadata.storage_start);
            }
        } else {
            if same_family(groups, index, h) {
                assert(outside(sets, groups[h], entity));
                assert(groups[index].metadata.storage_end <= groups[h].metadata.new_storage_start);
                assert(!in_prefix(sets[start], groups[h].len, entity));
                assert(target >= groups[h].len);
                assert forall|j: int|
                    start <= j < end && groups[h].start() <= j < groups[h].end() implies !in_prefix(
                    #[trigger] sets[j],
                    groups[h].len,
                    entity,
                ) by {}
            } else {
                assert(groups[index].metadata.storage_end <= groups[h].metadata.storage_start);
            }
        }
    }
    lemma_moved_basic(sets, start, end, entity, target);
    lemma_move_others(sets, groups, entity, index, target);
    lemma_layout_keeps(groups, index, (len - 1) as usize, sets.len());
    assert(sorted(after, shrunk)) by {
        assert forall|j: int| start <= j < end implies shrunk.len <= (
        #[trigger] after[j]).entities.len() by {
            assert(target < sets[j].entities.len());
        }
        assert forall|j: int, i: int| start <= j < end && 0 <= i < shrunk.len implies (
        #[trigger] after[j].entities[i]) == after[start].entities[i] by {
            assert(sets[j].index_of(entity) == Some(p));
            assert(sets[start].index_of(entity) == Some(p));
            assert(sets[j].entities[i] == sets[start].entities[i]);
            assert(sets[j].entities[target] == sets[start].entities[target]);
        }
    }
    assert forall|other: Entity|
        (other != entity ==> exact(after, shrunk, other)) && (other == entity ==> outside(
            after,
            shrunk,
            other,
        )) by {
        lemma_moved_in_all(sets, start, end, entity, target, start, end, other);
        assert forall|j: int| start <= j < end implies (other != entity ==> (in_prefix(
            #[trigger] after[j],
            shrunk.len,
            other,
        ) <==> in_all(after, start, end, other))) && (other == entity ==> !in_prefix(
            after[j],
            shrunk.len,
            other,
        )) by {
            assert(after[j].index_of(other) == moved_position(
                sets,
                start,
                end,
                entity,
                target,
                j,
                other,
            ));
            assert(sets[j].index_of(entity) == Some(p));
            assert(sets[j].wf());
            sets[j].lemma_index_of(entity, 0);
            sets[j].lemma_index_of(other, 0);
            if other != entity {
                assert(exact(sets, groups[index], other));
                assert(in_prefix(sets[j], len, other) <==> in_all(sets, start, end, other));
            }
        }
    }
    assert forall|h: int| 0 <= h < groups2.len() implies sorted(after, #[trigger] groups2[h]) by {
        if h != index {
            assert(sorted(after, groups[h]));
        }
    }
    assert forall|a: int, b: int|
        0 <= a < b < groups2.len() && same_family(groups2, a, b) implies (
    #[trigger] groups2[b]).len <= (#[trigger] groups2[a]).len by {
        assert(same_family(groups, a, b));
        assert(groups[b].len <= groups[a].len);
        if a == index {
            assert(move_spares(sets, start, end, entity, target, groups[b]));
            assert(group_wf(groups, b, sets.len()));
            assert(groups[index].metadata.storage_end <= groups[b].metadata.new_storage_start);
        }
    }
    assert forall|h: int, other: Entity|
        0 <= h < groups2.len() && other != entity implies #[trigger] exact(
        after,
        groups2[h],
        other,
    ) by {
        if h != index {
            assert(exact(after, groups[h], other) == exact(sets, groups[h], other));
            assert(exact(sets, groups[h], other));
        }
    }
}

/// In a sorted group whose sets are well-formed, an entity grouped in one
/// storage of the group is grouped in every storage of the group.
pub proof fn lemma_prefix_uniform<T>(
    sets: Seq<SparseSetView<T>>,
    group: Group,
    entity: Entity,
    j: int,
    k: int,
)
    requires
        0 <= group.start() <= group.end() <= sets.len(),
        forall|j: int| 0 <= j < sets.len() ==> (#[trigger] sets[j]).wf(),
        sorted(sets, group),
        group.start() <= j < group.end(),
        group.start() <= k < group.end(),
        in_prefix(sets[j], group.len, entity),
    ensures
        in_prefix(sets[k], group.len, entity),
        sets[k].index_of(entity) == sets[j].index_of(entity),
{
    let d = sets[j].index_of(entity)->0;
    assert(sets[j].wf());
    assert(sets[k].wf());
    sets[j].lemma_index_of(entity, d as int);
    assert(sets[j].entities[d as int] == sets[group.start()].entities[d as int]);
    assert(sets[k].entities[d as int] == sets[group.start()].entities[d as int]);
    sets[k].lemma_index_of(entity, d as int);
}

/// What holds while the group pass for `entity` stands before group `next`:
/// every other entity is settled; the entity is grouped only where it holds
/// every component; the groups already visited, and those the mask does not
/// hold, have the entity exactly where it should be; and a group still held
/// by the mask has the earlier groups of its family either visited with the
/// entity holding all their components, or still held by the mask.
pub open spec fn pending<T>(state: PassState<T>, entity: Entity, next: nat) -> bool {
    &&& settled_but(state.sets, state.groups, entity)
    &&& forall|g: int|
        0 <= g < state.groups.len() ==> sound(state.sets, #[trigger] state.groups[g], entity)
    &&& forall|g: int|
        0 <= g < state.groups.len() && (g < next || !state.mask.has(g as nat)) ==> exact(
            state.sets,
            #[trigger] state.groups[g],
            entity,
        )
    &&& forall|g: int, a: int|
        next <= g < state.groups.len() && state.mask.has(g as nat) && 0 <= a < g && same_family(
            state.groups,
            a,
            g,
        ) ==> #[trigger] earlier_ready(state, entity, next, g, a)
}

/// Whether group `a`, an earlier group of the family of group `g`, is ready
/// for the group pass to reach `g`: it has been visited and the entity holds
/// all its components, or the mask still holds it.
pub open spec fn earlier_ready<T>(
    state: PassState<T>,
    entity: Entity,
    next: nat,
    g: int,
    a: int,
) -> bool {
    if a < next {
        in_all(state.sets, state.groups[a].start(), state.groups[a].end(), entity)
    } else {
        state.mask.has(a as nat)
    }
}

/// What holds while the ungroup pass for `entity` has visited the groups
/// from `done` on: every other entity is settled; the entity is outside the
/// visited groups that the mask holds and exactly where it should be in every
/// other group; and the mask holds, with a group, the later groups of its
/// family.
pub open spec fn released<T>(state: PassState<T>, entity: Entity, done: nat) -> bool {
    &&& settled_but(state.sets, state.groups, entity)
    &&& forall|g: int|
        done <= g < state.groups.len() && state.mask.has(g as nat) ==> outside(
            state.sets,
            #[trigger] state.groups[g],
            entity,
        )
    &&& forall|g: int|
        0 <= g < state.groups.len() && !(done <= g && state.mask.has(g as nat)) ==> exact(
            state.sets,
            #[trigger] state.groups[g],
            entity,
        )
    &&& closed_upward(state.groups, state.mask)
}

/// The mask holds, with a group, the later groups of its family.
pub open spec fn closed_upward(groups: Seq<Group>, mask: GroupMask) -> bool {
    forall|g: int, b: int|
        0 <= g < b < groups.len() && #[trigger] same_family(groups, g, b) && mask.has(g as nat)
            ==> mask.has(b as nat)
}

/// While the group pass is pending at a group held by the mask, the entity
/// holds every component that the family's earlier groups ask for.
proof fn lemma_pending_earlier<T>(state: PassState<T>, entity: Entity, index: nat)
    requires
        pending(state, entity, index),
        index < state.groups.len(),
        state.mask.has(index),
    ensures
        in_all(
            state.sets,
            state.groups[index as int].start(),
            state.groups[index as int].fresh(),
            entity,
        ),
        forall|a: int|
            0 <= a < index && same_family(state.groups, a, index as int) ==> exact(
                state.sets,
                #[trigger] state.groups[a],
                entity,
            ),
{
    let g = index as int;
    assert(group_wf(state.groups, g, state.sets.len()));
    if state.groups[g].fresh() > state.groups[g].start() {
        assert(earlier_ready(state, entity, index, g, g - 1));
    }
}

/// The step of the group pass that takes the entity into a group keeps the
/// pass pending.
proof fn lemma_step_promote<T>(state: PassState<T>, entity: Entity, index: nat)
    requires
        pending(state, entity, index),
        index < state.groups.len(),
        state.mask.has(index),
        status_of(state.sets, state.groups[index as int], entity) == GroupStatus::Ungrouped,
    ensures
        pending(group_step(state, entity, index), entity, index + 1),
        in_all(
            state.sets,
            state.groups[index as int].start(),
            state.groups[index as int].end(),
            entity,
        ),
        state.groups[index as int].len < usize::MAX,
        forall|j: int|
            state.groups[index as int].start() <= j < state.groups[index as int].end()
                ==> state.groups[index as int].len < (#[trigger] state.sets[j]).entities.len(),
{
    let g = index as int;
    let group = state.groups[g];
    let sets = state.sets;
    let groups = state.groups;
    let next = group_step(state, entity, index);
    assert(group_wf(groups, g, sets.len()));
    assert(sorted(sets, group));
    lemma_pending_earlier(state, entity, index);
    assert(in_all(sets, group.start(), group.end(), entity)) by {
        assert forall|j: int| group.start() <= j < group.end() implies (#[trigger] sets[j]).contains(
            entity,
        ) by {}
    }
    assert(outside(sets, group, entity)) by {
        assert forall|j: int| group.start() <= j < group.end() implies !in_prefix(
            #[trigger] sets[j],
            group.len,
            entity,
        ) by {
            if in_prefix(sets[j], group.len, entity) {
                lemma_prefix_uniform(sets, group, entity, j, group.fresh());
            }
        }
    }
    lemma_promote(sets, groups, entity, g);
    lemma_moved_basic(sets, group.start(), group.end(), entity, group.len as int);
    lemma_layout_keeps(groups, g, (group.len + 1) as usize, sets.len());
    assert forall|h: int| 0 <= h < next.groups.len() implies sound(
        next.sets,
        #[trigger] next.groups[h],
        entity,
    ) by {
        if h != g {
            assert(sound(next.sets, groups[h], entity) == sound(sets, groups[h], entity));
            assert(sound(sets, groups[h], entity));
        }
    }
    assert forall|h: int|
        0 <= h < next.groups.len() && (h < index + 1 || !next.mask.has(h as nat)) implies exact(
        next.sets,
        #[trigger] next.groups[h],
        entity,
    ) by {
        if h != g {
            assert(exact(next.sets, groups[h], entity) == exact(sets, groups[h], entity));
            assert(exact(sets, groups[h], entity));
        }
    }
    assert forall|h: int, a: int|
        index + 1 <= h < next.groups.len() && next.mask.has(h as nat) && 0 <= a < h && same_family(
            next.groups,
            a,
            h,
        ) implies #[trigger] earlier_ready(next, entity, index + 1, h, a) by {
        assert(same_family(groups, a, h));
        assert(earlier_ready(state, entity, index, h, a));
        assert(group_wf(groups, a, sets.len()));
        lemma_moved_in_all(
            sets,
            group.start(),
            group.end(),
            entity,
            group.len as int,
            groups[a].start(),
            groups[a].end(),
            entity,
        );
    }
}

/// The steps of the group pass that move nothing keep the pass pending.
proof fn lemma_step_still<T>(state: PassState<T>, entity: Entity, index: nat)
    requires
        pending(state, entity, index),
        index < state.groups.len(),
        !state.mask.has(index) || status_of(state.sets, state.groups[index as int], entity)
            != GroupStatus::Ungrouped,
    ensures
        pending(group_step(state, entity, index), entity, index + 1),
{
    let g = index as int;
    let group = state.groups[g];
    let sets = state.sets;
    let groups = state.groups;
    let next = group_step(state, entity, index);
    assert(group_wf(groups, g, sets.len()));
    assert(sorted(sets, group));
    assert(sound(sets, group, entity));
    if !state.mask.has(index) {
        assert(exact(sets, groups[g], entity));
        assert forall|h: int, a: int|
            index + 1 <= h < next.groups.len() && next.mask.has(h as nat) && 0 <= a < h
                && same_family(next.groups, a, h) implies #[trigger] earlier_ready(
            next,
            entity,
            index + 1,
            h,
            a,
        ) by {
            assert(earlier_ready(state, entity, index, h, a));
        }
    } else {
        lemma_pending_earlier(state, entity, index);
        match status_of(sets, group, entity) {
            GroupStatus::Grouped => {
                assert(in_all(sets, group.start(), group.end(), entity)) by {
                    assert forall|j: int| group.start() <= j < group.end() implies (
                    #[trigger] sets[j]).contains(entity) by {}
                }
                assert(exact(sets, group, entity)) by {
                    assert forall|j: int| group.start() <= j < group.end() implies (in_prefix(
                        #[trigger] sets[j],
                        group.len,
                        entity,
                    ) <==> in_all(sets, group.start(), group.end(), entity)) by {
                        lemma_prefix_uniform(sets, group, entity, group.fresh(), j);
                    }
                }
                assert forall|h: int, a: int|
                    index + 1 <= h < next.groups.len() && next.mask.has(h as nat) && 0 <= a < h
                        && same_family(next.groups, a, h) implies #[trigger] earlier_ready(
                    next,
                    entity,
                    index + 1,
                    h,
                    a,
                ) by {
                    assert(earlier_ready(state, entity, index, h, a));
                }
            },
            _ => {
                // The entity lacks a component of the group, and so of every later
                // group of the family.
                let skip = group.metadata.skip_mask;
                assert(!in_all(sets, group.fresh(), group.end(), entity));
                let k = choose|k: int| group.fresh() <= k < group.end() && !sets[k].contains(entity);
                assert(!sets[k].contains(entity));
                assert forall|h: int|
                    0 <= h < groups.len() && g <= h && same_family(groups, g, h) implies exact(
                    sets,
                    #[trigger] groups[h],
                    entity,
                ) by {
                    assert(group_wf(groups, h, sets.len()));
                    assert(groups[h].start() <= k < groups[h].end());
                    assert(!in_all(sets, groups[h].start(), groups[h].end(), entity));
                    assert(sound(sets, groups[h], entity));
                }
                assert forall|h: nat| next.mask.has(h) <==> state.mask.has(h) && skip.has(h) by {
                    lemma_ops32(state.mask.0, skip.0, h);
                }
                assert forall|h: int|
                    0 <= h < next.groups.len() && (h < index + 1 || !next.mask.has(h as nat))
                        implies exact(next.sets, #[trigger] next.groups[h], entity) by {
                    lemma_ops32(state.mask.0, skip.0, h as nat);
                    if h >= index + 1 && state.mask.has(h as nat) {
                        assert(!skip.has(h as nat));
                        assert(bit32(groups[g].metadata.skip_mask.0, h as nat) <==> !(g <= h && h
                            < groups.len() && same_family(groups, g, h)));
                    }
                }
                assert forall|h: int, a: int|
                    index + 1 <= h < next.groups.len() && next.mask.has(h as nat) && 0 <= a < h
                        && same_family(next.groups, a, h) implies #[trigger] earlier_ready(
                    next,
                    entity,
                    index + 1,
                    h,
                    a,
                ) by {
                    lemma_ops32(state.mask.0, skip.0, h as nat);
                    lemma_ops32(state.mask.0, skip.0, a as nat);
                    assert(earlier_ready(state, entity, index, h, a));
                    assert(bit32(groups[g].metadata.skip_mask.0, h as nat) <==> !(g <= h && h
                        < groups.len() && same_family(groups, g, h)));
                    assert(bit32(groups[g].metadata.skip_mask.0, a as nat) <==> !(g <= a && a
                        < groups.len() && same_family(groups, g, a)));
                }
            },
        }
    }
}

/// Whether `after` has the storages and groups of `before` with nothing
/// changed but the order of the dense slots and the number of grouped
/// entities: every set holds the same entities with the same components and
/// ticks, and every group has the same metadata.
pub open spec fn reordered<T>(before: PassState<T>, after: PassState<T>) -> bool {
    &&& after.sets.len() == before.sets.len()
    &&& after.groups.len() == before.groups.len()
    &&& forall|g: int|
        0 <= g < before.groups.len() ==> (#[trigger] after.groups[g]).metadata
            == before.groups[g].metadata
    &&& forall|j: int|
        0 <= j < before.sets.len() ==> (#[trigger] after.sets[j]).same_content(before.sets[j])
}

/// Reordering twice is reordering.
pub proof fn lemma_reordered_trans<T>(a: PassState<T>, b: PassState<T>, c: PassState<T>)
    requires
        reordered(a, b),
        reordered(b, c),
    ensures
        reordered(a, c),
{
    assert forall|g: int| 0 <= g < a.groups.len() implies (#[trigger] c.groups[g]).metadata
        == a.groups[g].metadata by {
        assert(b.groups[g].metadata == a.groups[g].metadata);
    }
    assert forall|j: int| 0 <= j < a.sets.len() implies (#[trigger] c.sets[j]).same_content(
        a.sets[j],
    ) by {
        assert(b.sets[j].same_content(a.sets[j]));
        assert(c.sets[j].same_content(b.sets[j]));
        assert forall|entity: Entity| #[trigger]
            c.sets[j].slot_of(entity) == a.sets[j].slot_of(entity) by {
            assert(b.sets[j].slot_of(entity) == a.sets[j].slot_of(entity));
            assert(c.sets[j].slot_of(entity) == b.sets[j].slot_of(entity));
        }
    }
}

/// Whether `entity` sits among the grouped entities of every storage of the
/// group.
pub open spec fn inside<T>(sets: Seq<SparseSetView<T>>, group: Group, entity: Entity) -> bool {
    forall|j: int|
        group.start() <= j < group.end() ==> in_prefix(#[trigger] sets[j], group.len, entity)
}

/// While the group pass is pending at a group held by the mask, the
/// standing that is read from the storages the group adds says how the
/// entity stands with all storages of the group: incomplete exactly if some
/// storage of the group lacks the entity, grouped exactly if the entity sits
/// among the grouped entities of every storage, and ungrouped exactly if
/// every storage holds it and none has it among the grouped entities.
pub proof fn lemma_status_while_grouping<T>(state: PassState<T>, entity: Entity, index: nat)
    requires
        pending(state, entity, index),
        index < state.groups.len(),
        state.mask.has(index),
    ensures
        status_of(state.sets, state.groups[index as int], entity) == GroupStatus::Incomplete
            <==> !in_all(
            state.sets,
            state.groups[index as int].start(),
            state.groups[index as int].end(),
            entity,
        ),
        status_of(state.sets, state.groups[index as int], entity) == GroupStatus::Grouped
            <==> inside(state.sets, state.groups[index as int], entity),
        status_of(state.sets, state.groups[index as int], entity) == GroupStatus::Ungrouped
            <==> in_all(
            state.sets,
            state.groups[index as int].start(),
            state.groups[index as int].end(),
            entity,
        ) && outside(state.sets, state.groups[index as int], entity),
{
    let group = state.groups[index as int];
    let sets = state.sets;
    assert(group_wf(state.groups, index as int, sets.len()));
    assert(sorted(sets, group));
    assert(sound(sets, group, entity));
    lemma_pending_earlier(state, entity, index);
    if in_all(sets, group.fresh(), group.end(), entity) {
        assert(in_all(sets, group.start(), group.end(), entity)) by {
            assert forall|j: int| group.start() <= j < group.end() implies (#[trigger] sets[j]).contains(
                entity,
            ) by {}
        }
        assert(sets[group.fresh()].contains(entity));
    } else {
        let k = choose|k: int| group.fresh() <= k < group.end() && !sets[k].contains(entity);
        assert(!sets[k].contains(entity));
        assert(!inside(sets, group, entity)) by {
            assert(!in_prefix(sets[k], group.len, entity));
        }
    }
    if in_prefix(sets[group.fresh()], group.len, entity) {
        assert forall|j: int| group.start() <= j < group.end() implies in_prefix(
            #[trigger] sets[j],
            group.len,
            entity,
        ) by {
            lemma_prefix_uniform(sets, group, entity, group.fresh(), j);
        }
    } else {
        assert forall|j: int| group.start() <= j < group.end() implies !in_prefix(
            #[trigger] sets[j],
            group.len,
            entity,
        ) by {
            if in_prefix(sets[j], group.len, entity) {
                lemma_prefix_uniform(sets, group, entity, j, group.fresh());
            }
        }
    }
    if inside(sets, group, entity) {
        assert(in_prefix(sets[group.fresh()], group.len, entity));
    }
    if outside(sets, group, entity) {
        assert(!in_prefix(sets[group.fresh()], group.len, entity));
    }
}

/// While the ungroup pass stands at a group, the standing that is read from
/// the storages the group adds is `Grouped` exactly if the entity sits among
/// the grouped entities of every storage of the group.
pub proof fn lemma_status_while_ungrouping<T>(state: PassState<T>, entity: Entity, index: nat)
    requires
        released(state, entity, index + 1),
        index < state.groups.len(),
    ensures
        status_of(state.sets, state.groups[index as int], entity) == GroupStatus::Grouped
            <==> inside(state.sets, state.groups[index as int], entity),
{
    let group = state.groups[index as int];
    let sets = state.sets;
    assert(group_wf(state.groups, index as int, sets.len()));
    assert(sorted(sets, group));
    assert(exact(sets, group, entity));
    if status_of(sets, group, entity) == GroupStatus::Grouped {
        assert(in_prefix(sets[group.fresh()], group.len, entity));
        assert forall|j: int| group.start() <= j < group.end() implies in_prefix(
            #[trigger] sets[j],
            group.len,
            entity,
        ) by {
            lemma_prefix_uniform(sets, group, entity, group.fresh(), j);
        }
    }
    if inside(sets, group, entity) {
        assert(in_prefix(sets[group.fresh()], group.len, entity));
        assert(in_all(sets, group.start(), group.end(), entity));
        assert forall|j: int| group.fresh() <= j < group.end() implies (#[trigger] sets[j]).contains(
            entity,
        ) by {}
    }
}

/// A step of the group pass keeps the pass pending and only reorders.
pub proof fn lemma_group_step<T>(state: PassState<T>, entity: Entity, index: nat)
    requires
        pending(state, entity, index),
        index < state.groups.len(),
    ensures
        pending(group_step(state, entity, index), entity, index + 1),
        reordered(state, group_step(state, entity, index)),
        state.mask.has(index) && status_of(state.sets, state.groups[index as int], entity)
            == GroupStatus::Ungrouped ==> {
            &&& in_all(
                state.sets,
                state.groups[index as int].start(),
                state.groups[index as int].end(),
                entity,
            )
            &&& state.groups[index as int].len < usize::MAX
            &&& forall|j: int|
                state.groups[index as int].start() <= j < state.groups[index as int].end()
                    ==> state.groups[index as int].len < (#[trigger] state.sets[j]).entities.len()
        },
{
    let group = state.groups[index as int];
    let next = group_step(state, entity, index);
    assert(group_wf(state.groups, index as int, state.sets.len()));
    if state.mask.has(index) && status_of(state.sets, group, entity) == GroupStatus::Ungrouped {
        lemma_step_promote(state, entity, index);
        lemma_moved_basic(state.sets, group.start(), group.end(), entity, group.len as int);
    } else {
        lemma_step_still(state, entity, index);
        assert forall|j: int| 0 <= j < state.sets.len() implies (
        #[trigger] next.sets[j]).same_content(state.sets[j]) by {}
    }
}

/// A step of the ungroup pass keeps what the pass has released and only
/// reorders.
pub proof fn lemma_ungroup_step<T>(state: PassState<T>, entity: Entity, index: nat)
    requires
        released(state, entity, index + 1),
        index < state.groups.len(),
    ensures
        released(ungroup_step(state, entity, index), entity, index),
        reordered(state, ungroup_step(state, entity, index)),
        state.mask.has(index) && status_of(state.sets, state.groups[index as int], entity)
            == GroupStatus::Grouped ==> {
            &&& state.groups[index as int].len > 0
            &&& forall|j: int|
                state.groups[index as int].start() <= j < state.groups[index as int].end()
                    ==> in_prefix(#[trigger] state.sets[j], state.groups[index as int].len, entity)
                    && state.groups[index as int].len <= state.sets[j].entities.len()
        },
{
    let g = index as int;
    let group = state.groups[g];
    let sets = state.sets;
    let groups = state.groups;
    let next = ungroup_step(state, entity, index);
    assert(group_wf(groups, g, sets.len()));
    assert(sorted(sets, group));
    assert(exact(sets, group, entity));
    if state.mask.has(index) && status_of(sets, group, entity) == GroupStatus::Grouped {
        assert(in_prefix(sets[group.fresh()], group.len, entity));
        assert(in_all(sets, group.start(), group.end(), entity));
        assert forall|j: int| group.start() <= j < group.end() implies in_prefix(
            #[trigger] sets[j],
            group.len,
            entity,
        ) && group.len <= sets[j].entities.len() by {}
        assert forall|b: int| g < b < groups.len() && same_family(groups, g, b) implies outside(
            sets,
            #[trigger] groups[b],
            entity,
        ) by {
            assert(state.mask.has(b as nat));
        }
        lemma_demote(sets, groups, entity, g);
        lemma_moved_basic(sets, group.start(), group.end(), entity, group.len - 1);
        lemma_layout_keeps(groups, g, (group.len - 1) as usize, sets.len());
        assert forall|h: int|
            index <= h < next.groups.len() && next.mask.has(h as nat) implies outside(
            next.sets,
            #[trigger] next.groups[h],
            entity,
        ) by {
            if h != g {
                assert(outside(next.sets, groups[h], entity) == outside(sets, groups[h], entity));
                assert(outside(sets, groups[h], entity));
            }
        }
        assert forall|h: int|
            0 <= h < next.groups.len() && !(index <= h && next.mask.has(h as nat)) implies exact(
            next.sets,
            #[trigger] next.groups[h],
            entity,
        ) by {
            assert(exact(next.sets, groups[h], entity) == exact(sets, groups[h], entity));
            assert(exact(sets, groups[h], entity));
        }
        assert(closed_upward(next.groups, next.mask)) by {
            assert forall|a: int, b: int|
                0 <= a < b < next.groups.len() && #[trigger] same_family(next.groups, a, b)
                    && next.mask.has(a as nat) implies next.mask.has(b as nat) by {
                assert(same_family(groups, a, b));
            }
        }
    } else {
        if state.mask.has(index) {
            assert(outside(sets, group, entity)) by {
                assert forall|j: int| group.start() <= j < group.end() implies !in_prefix(
                    #[trigger] sets[j],
                    group.len,
                    entity,
                ) by {
                    if in_prefix(sets[j], group.len, entity) {
                        lemma_prefix_uniform(sets, group, entity, j, group.fresh());
                        assert(in_all(sets, group.start(), group.end(), entity));
                        assert forall|k: int| group.fresh() <= k < group.end() implies (
                        #[trigger] sets[k]).contains(entity) by {}
                    }
                }
            }
        }
        assert forall|j: int| 0 <= j < state.sets.len() implies (
        #[trigger] next.sets[j]).same_content(state.sets[j]) by {}
    }
}

/// The group pass, started where it is pending, ends with the group
/// discipline restored, and has only reordered.
pub proof fn lemma_grouped<T>(state: PassState<T>, entity: Entity, from: nat, count: nat)
    requires
        pending(state, entity, from),
        from + count == state.groups.len(),
    ensures
        disciplined(
            grouped_from(state, entity, from, count).sets,
            grouped_from(state, entity, from, count).groups,
        ),
        reordered(state, grouped_from(state, entity, from, count)),
    decreases count,
{
    if count == 0 {
        assert forall|j: int| 0 <= j < state.sets.len() implies (
        #[trigger] state.sets[j]).same_content(state.sets[j]) by {}
        assert forall|g: int, other: Entity| 0 <= g < state.groups.len() implies #[trigger] exact(
            state.sets,
            state.groups[g],
            other,
        ) by {}
    } else {
        lemma_group_step(state, entity, from);
        let next = group_step(state, entity, from);
        lemma_grouped(next, entity, from + 1, (count - 1) as nat);
        lemma_reordered_trans(state, next, grouped_from(next, entity, from + 1, (count - 1) as nat));
    }
}

/// The ungroup pass, started where nothing is released yet, ends with the
/// entity outside every group that the mask holds, and has only reordered.
pub proof fn lemma_ungrouped<T>(state: PassState<T>, entity: Entity, below: nat)
    requires
        released(state, entity, below),
        below <= state.groups.len(),
    ensures
        released(ungrouped_below(state, entity, below), entity, 0),
        reordered(state, ungrouped_below(state, entity, below)),
        ungrouped_below(state, entity, below).mask == state.mask,
    decreases below,
{
    if below == 0 {
        assert forall|j: int| 0 <= j < state.sets.len() implies (
        #[trigger] state.sets[j]).same_content(state.sets[j]) by {}
    } else {
        let index = (below - 1) as nat;
        lemma_ungroup_step(state, entity, index);
        let next = ungroup_step(state, entity, index);
        lemma_ungrouped(next, entity, index);
        lemma_reordered_trans(state, next, ungrouped_below(next, entity, index));
    }
}

/// The mathematical content of each of the storages.
pub open spec fn set_views<T>(sets: Seq<ComponentSparseSet<T>>) -> Seq<SparseSetView<T>> {
    Seq::new(sets.len(), |j: int| sets[j]@)
}

/// The state of a pass over the given storages and groups.
pub open spec fn pass_state<T>(
    sets: Seq<ComponentSparseSet<T>>,
    groups: Seq<Group>,
    mask: GroupMask,
) -> PassState<T> {
    PassState { sets: set_views(sets), groups, mask }
}

/// Reads the standing of `entity` with respect to `group` from the storages
/// that the group adds to its family's previous group.
pub fn get_group_status<T>(
    sets: &Vec<ComponentSparseSet<T>>,
    group: &Group,
    entity: Entity,
) -> (status: GroupStatus)
    requires
        group.metadata.new_storage_start < group.metadata.storage_end,
        group.metadata.storage_end <= sets.len(),
        forall|j: int| 0 <= j < sets.len() ==> (#[trigger] sets[j]).wf(),
    ensures
        status == status_of(set_views(sets@), *group, entity),
{
    let first: usize = group.metadata.new_storage_start;
    let end: usize = group.metadata.storage_end;
    let ghost views = set_views(sets@);
    let mut j: usize = first;
    while j < end
        invariant
            first <= j <= end <= sets.len(),
            first == group.metadata.new_storage_start,
            end == group.metadata.storage_end,
            views == set_views(sets@),
            forall|k: int| 0 <= k < sets.len() ==> (#[trigger] sets[k]).wf(),
            forall|k: int| first <= k < j ==> (#[trigger] views[k]).contains(entity),
        decreases end - j,
    {
        if !sets[j].contains(entity) {
            proof {
                assert(!views[j as int].contains(entity));
                assert(!in_all(views, group.fresh(), group.end(), entity));
            }
            return GroupStatus::Incomplete;
        }
        j = j + 1;
    }
    assert(in_all(views, group.fresh(), group.end(), entity));
    match sets[first].get_index(entity) {
        Some(d) => {
            if d < group.len {
                GroupStatus::Grouped
            } else {
                GroupStatus::Ungrouped
            }
        },
        None => {
            proof {
                assert(views[first as int].contains(entity));
            }
            GroupStatus::Ungrouped
        },
    }
}

/// Swaps `entity` to the dense slot `target` in each of the storages
/// `start..end` that holds it.
pub fn move_entity<T>(
    sets: &mut Vec<ComponentSparseSet<T>>,
    start: usize,
    end: usize,
    entity: Entity,
    target: usize,
)
    requires
        start <= end <= old(sets).len(),
        forall|j: int| 0 <= j < old(sets).len() ==> (#[trigger] old(sets)[j]).wf(),
        forall|j: int| start <= j < end ==> target < (#[trigger] old(sets)[j])@.entities.len(),
    ensures
        final(sets).len() == old(sets).len(),
        forall|j: int| 0 <= j < final(sets).len() ==> (#[trigger] final(sets)[j]).wf(),
        set_views(final(sets)@) == moved_to(
            set_views(old(sets)@),
            start as int,
            end as int,
            entity,
            target as int,
        ),
{
    let ghost before = set_views(sets@);
    let mut j: usize = start;
    while j < end
        invariant
            start <= j <= end <= sets.len(),
            sets.len() == old(sets).len(),
            before == set_views(old(sets)@),
            forall|k: int| 0 <= k < sets.len() ==> (#[trigger] sets[k]).wf(),
            forall|k: int| start <= k < end ==> target < (#[trigger] before[k]).entities.len(),
            set_views(sets@) =~= moved_to(before, start as int, j as int, entity, target as int),
        decreases end - j,
    {
        let ghost prior = set_views(sets@);
        assert(prior[j as int] == before[j as int]);
        match sets[j].get_index(entity) {
            Some(d) => {
                sets[j].swap(d, target);
            },
            None => {},
        }
        j = j + 1;
        proof {
            let now = set_views(sets@);
            let goal = moved_to(before, start as int, j as int, entity, target as int);
            assert forall|k: int| 0 <= k < now.len() implies now[k] == goal[k] by {
                assert(prior[k] == moved_to(
                    before,
                    start as int,
                    j - 1,
                    entity,
                    target as int,
                )[k]);
            }
        }
    }
}

/// Runs the group pass for `entity`: visits the groups held by `mask` from
/// the first to the last and takes the entity into each group whose
/// components it all holds.
///
/// The pass is meant to run right after components were inserted for the
/// entity, with a mask that holds the groups of the families those components
/// belong to. It restores the group discipline and changes nothing but the
/// order of dense slots and the number of grouped entities.
pub fn group<T>(
    sets: &mut Vec<ComponentSparseSet<T>>,
    groups: &mut Vec<Group>,
    mask: GroupMask,
    entity: Entity,
)
    requires
        pending(pass_state(old(sets)@, old(groups)@, mask), entity, 0),
    ensures
        set_views(final(sets)@) == grouped_from(
            pass_state(old(sets)@, old(groups)@, mask),
            entity,
            0,
            old(groups).len() as nat,
        ).sets,
        final(groups)@ == grouped_from(
            pass_state(old(sets)@, old(groups)@, mask),
            entity,
            0,
            old(groups).len() as nat,
        ).groups,
        disciplined(set_views(final(sets)@), final(groups)@),
        reordered(
            pass_state(old(sets)@, old(groups)@, mask),
            pass_state(final(sets)@, final(groups)@, mask),
        ),
        final(sets).len() == old(sets).len(),
        final(groups).len() == old(groups).len(),
{
    let ghost initial = pass_state(sets@, groups@, mask);
    let count: usize = groups.len();
    let mut mask = mask;
    let mut i: usize = 0;
    proof {
        lemma_grouped(initial, entity, 0, count as nat);
    }
    while i < count
        invariant
            i <= count == groups.len(),
            count <= 32,
            sets.len() == old(sets).len(),
            pending(pass_state(sets@, groups@, mask), entity, i as nat),
            grouped_from(pass_state(sets@, groups@, mask), entity, i as nat, (count - i) as nat)
                == grouped_from(initial, entity, 0, count as nat),
        decreases count - i,
    {
        let ghost state = pass_state(sets@, groups@, mask);
        proof {
            lemma_group_step(state, entity, i as nat);
            assert(group_wf(groups@, i as int, state.sets.len()));
            assert forall|j: int| 0 <= j < sets.len() implies (#[trigger] sets[j]).wf() by {
                assert(state.sets[j].wf());
            }
        }
        if mask.contains(i) {
            let current: Group = groups[i];
            match get_group_status(sets, &current, entity) {
                GroupStatus::Incomplete => {
                    mask = mask.intersection(current.metadata.skip_mask);
                },
                GroupStatus::Grouped => {},
                GroupStatus::Ungrouped => {
                    proof {
                        assert forall|j: int|
                            current.metadata.storage_start <= j
                                < current.metadata.storage_end implies current.len < (
                        #[trigger] sets[j])@.entities.len() by {
                            assert(current.len < state.sets[j].entities.len());
                        }
                    }
                    move_entity(
                        sets,
                        current.metadata.storage_start,
                        current.metadata.storage_end,
                        entity,
                        current.len,
                    );
                    groups[i] = Group { metadata: current.metadata, len: current.len + 1 };
                },
            }
        }
        proof {
            assert(pass_state(sets@, groups@, mask) == group_step(state, entity, i as nat));
        }
        i = i + 1;
    }
}

/// Runs the ungroup pass for `entity`: visits the groups held by `mask` from
/// the last to the first and lets the entity go from each group it is
/// grouped in.
///
/// The pass is meant to run right before components of the entity are
/// removed, with a mask that holds the groups which those components take
/// part in. It leaves the entity outside every group held by the mask and
/// changes nothing but the order of dense slots and the number of grouped
/// entities.
pub fn ungroup<T>(
    sets: &mut Vec<ComponentSparseSet<T>>,
    groups: &mut Vec<Group>,
    mask: GroupMask,
    entity: Entity,
)
    requires
        released(pass_state(old(sets)@, old(groups)@, mask), entity, old(groups).len() as nat),
    ensures
        set_views(final(sets)@) == ungrouped_below(
            pass_state(old(sets)@, old(groups)@, mask),
            entity,
            old(groups).len() as nat,
        ).sets,
        final(groups)@ == ungrouped_below(
            pass_state(old(sets)@, old(groups)@, mask),
            entity,
            old(groups).len() as nat,
        ).groups,
        released(pass_state(final(sets)@, final(groups)@, mask), entity, 0),
        reordered(
            pass_state(old(sets)@, old(groups)@, mask),
            pass_state(final(sets)@, final(groups)@, mask),
        ),
        final(sets).len() == old(sets).len(),
        final(groups).len() == old(groups).len(),
{
    let ghost initial = pass_state(sets@, groups@, mask);
    let count: usize = groups.len();
    let mut i: usize = count;
    proof {
        lemma_ungrouped(initial, entity, count as nat);
    }
    while i > 0
        invariant
            i <= count == groups.len(),
            count <= 32,
            sets.len() == old(sets).len(),
            released(pass_state(sets@, groups@, mask), entity, i as nat),
            ungrouped_below(pass_state(sets@, groups@, mask), entity, i as nat) == ungrouped_below(
                initial,
                entity,
                count as nat,
            ),
        decreases i,
    {
        i = i - 1;
        let ghost state = pass_state(sets@, groups@, mask);
        proof {
            lemma_ungroup_step(state, entity, i as nat);
            assert(group_wf(groups@, i as int, state.sets.len()));
            assert forall|j: int| 0 <= j < sets.len() implies (#[trigger] sets[j]).wf() by {
                assert(state.sets[j].wf());
            }
        }
        if mask.contains(i) {
            let current: Group = groups[i];
            match get_group_status(sets, &current, entity) {
                GroupStatus::Grouped => {
                    proof {
                        assert forall|j: int|
                            current.metadata.storage_start <= j
                                < current.metadata.storage_end implies current.len - 1 < (
                        #[trigger] sets[j])@.entities.len() by {
                            assert(current.len <= state.sets[j].entities.len());
                        }
                    }
                    move_entity(
                        sets,
                        current.metadata.storage_start,
                        current.metadata.storage_end,
                        entity,
                        current.len - 1,
                    );
                    groups[i] = Group { metadata: current.metadata, len: current.len - 1 };
                },
                _ => {},
            }
        }
        proof {
            assert(pass_state(sets@, groups@, mask) == ungroup_step(state, entity, i as nat));
        }
    }
}

} // verus!
