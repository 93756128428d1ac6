//! What a component storage holds right after it was laid out: the groups
//! and the registry entries that a layout asks for, and why they meet the
//! invariant of the storage.

use vstd::prelude::*;
use crate::entity::Entity;
use crate::group::{
    disciplined, exact, group_wf, in_all, in_prefix, layout_wf, same_family, sorted, Group,
    GroupMetadata,
};
use crate::layout::{group_count, lemma_counts, storage_count, ComponentId, GroupFamily};
use crate::masks::{
    bit32, lemma_ops32, lemma_range16, lemma_range32, range16, range32, GroupMask, QueryMask,
    StorageMask,
};
use crate::registry::ComponentMetadata;
use crate::sparse_set::SparseSetView;

verus! {

/// Arity of the group before level `level` in a family; 0 at the first
/// level.
pub open spec fn prev_arity(arities: Seq<usize>, level: int) -> nat {
    if level <= 0 {
        0
    } else {
        arities[level - 1] as nat
    }
}

/// Whether the group at `level` is the first of the family to hold the
/// family's component `slot`.
pub open spec fn level_of(arities: Seq<usize>, slot: int, level: int) -> bool {
    &&& 0 <= level < arities.len()
    &&& prev_arity(arities, level) <= slot
    &&& slot < arities[level]
}

/// The group that a layout asks for at `level` of family `family`, with no
/// entity grouped.
pub open spec fn layout_group(families: Seq<GroupFamily>, family: int, level: int) -> Group {
    let first = storage_count(families, family as nat);
    let arities = families[family].spec_arities();
    let before = prev_arity(arities, level);
    Group {
        metadata: GroupMetadata {
            storage_start: first as usize,
            new_storage_start: (first + before) as usize,
            storage_end: (first + arities[level]) as usize,
            skip_mask: GroupMask(
                !range32(
                    group_count(families, family as nat) + level as nat,
                    group_count(families, (family + 1) as nat),
                ),
            ),
            include_mask: QueryMask {
                included: StorageMask(range16(0, arities[level] as nat)),
                excluded: StorageMask(0),
            },
            exclude_mask: QueryMask {
                included: StorageMask(range16(0, before)),
                excluded: StorageMask(range16(before, arities[level] as nat)),
            },
        },
        len: 0,
    }
}

/// What a layout asks the registry to remember about component `slot` of
/// family `family`, which the group at `level` is the first to hold.
pub open spec fn layout_metadata(
    families: Seq<GroupFamily>,
    family: int,
    slot: int,
    level: int,
) -> ComponentMetadata {
    let first_group = group_count(families, family as nat);
    let next_group = group_count(families, (family + 1) as nat);
    ComponentMetadata {
        storage_index: (storage_count(families, family as nat) + slot) as usize,
        insert_mask: GroupMask(range32(first_group, next_group)),
        delete_mask: GroupMask(range32(first_group + level as nat, next_group)),
        group_start: first_group as usize,
        group_end: (first_group + level + 1) as usize,
        storage_mask: StorageMask(range16(slot as nat, slot as nat + 1)),
    }
}

/// Where a group or a registry entry of a laid-out storage comes from:
/// the family, and the level or the slot within the family.
pub struct Origin {
    /// Index of the family.
    pub family: int,
    /// Level of the group, or level of the first group to hold the slot.
    pub level: int,
    /// Slot of the component type within the family; unused for a group.
    pub slot: int,
}

/// Whether `groups` are the groups that the layout asks for, `origins`
/// saying for each where it comes from.
pub open spec fn groups_laid_out(
    families: Seq<GroupFamily>,
    groups: Seq<Group>,
    origins: Seq<Origin>,
) -> bool {
    &&& origins.len() == groups.len()
    &&& forall|g: int|
        0 <= g < groups.len() ==> {
            &&& 0 <= (#[trigger] origins[g]).family < families.len()
            &&& 0 <= origins[g].level < families[origins[g].family].spec_arities().len()
            &&& g == group_count(families, origins[g].family as nat) + origins[g].level
            &&& groups[g] == layout_group(families, origins[g].family, origins[g].level)
        }
}

/// Whether `registry` holds what the layout asks for, `origins` saying for
/// each entry where it comes from.
pub open spec fn registry_laid_out(
    families: Seq<GroupFamily>,
    registry: Map<u64, ComponentMetadata>,
    origins: Map<u64, Origin>,
) -> bool {
    forall|key: u64| #[trigger]
        registry.contains_key(key) ==> {
            &&& origins.contains_key(key)
            &&& 0 <= origins[key].family < families.len()
            &&& 0 <= origins[key].slot < families[origins[key].family].spec_components().len()
            &&& families[origins[key].family].spec_components()[origins[key].slot].0 == key
            &&& level_of(
                families[origins[key].family].spec_arities(),
                origins[key].slot,
                origins[key].level,
            )
            &&& registry[key] == layout_metadata(
                families,
                origins[key].family,
                origins[key].slot,
                origins[key].level,
            )
        }
}

/// The groups and storages of a family lie within those of the layout, and
/// a family that comes later starts where the earlier one has ended or
/// after.
pub proof fn lemma_family_bounds(families: Seq<GroupFamily>, early: int, late: int)
    requires
        0 <= early < late <= families.len(),
        forall|f: int| 0 <= f < families.len() ==> (#[trigger] families[f]).wf(),
    ensures
        group_count(families, (early + 1) as nat) == group_count(families, early as nat)
            + families[early].spec_arities().len(),
        storage_count(families, (early + 1) as nat) == storage_count(families, early as nat)
            + families[early].spec_components().len(),
        group_count(families, (early + 1) as nat) <= group_count(families, late as nat),
        storage_count(families, (early + 1) as nat) <= storage_count(families, late as nat),
        group_count(families, late as nat) <= group_count(families, families.len()),
        storage_count(families, late as nat) <= storage_count(families, families.len()),
        1 <= families[early].spec_arities().len(),
        1 <= families[early].spec_components().len() <= 16,
{
    lemma_counts(families, (early + 1) as nat, late as nat);
    lemma_counts(families, late as nat, families.len());
    assert(families[early].wf());
    let arities = families[early].spec_arities();
    assert(1 <= arities[arities.len() - 1]);
}

/// Within a valid family the arities bound one another as the levels do.
pub proof fn lemma_levels(family: GroupFamily, low: int, high: int)
    requires
        family.wf(),
        0 <= low <= high < family.spec_arities().len(),
    ensures
        prev_arity(family.spec_arities(), low) < family.spec_arities()[low],
        family.spec_arities()[low] <= family.spec_arities()[high],
        family.spec_arities()[high] <= family.spec_components().len(),
        family.spec_components().len() <= 16,
        low < high ==> family.spec_arities()[low] <= prev_arity(family.spec_arities(), high),
        1 <= family.spec_arities()[low],
{
    let arities = family.spec_arities();
    let last = arities.len() - 1;
    assert(1 <= arities[low]);
    if low > 0 {
        assert(arities[low - 1] < arities[low]);
    }
    if low < high {
        assert(arities[low] < arities[high]);
        if low < high - 1 {
            assert(arities[low] < arities[high - 1]);
        }
    }
    if high < last {
        assert(arities[high] < arities[last]);
    }
}

/// A position that lies within one family cannot lie within another: if
/// a position counted from the start of family `a` is at most a position
/// counted from the start of family `b`, family `a` does not come after
/// family `b`. This holds of group indexes and of storage indexes alike.
pub proof fn lemma_decode(families: Seq<GroupFamily>, a: int, b: int)
    requires
        0 <= a < families.len(),
        0 <= b < families.len(),
        forall|f: int| 0 <= f < families.len() ==> (#[trigger] families[f]).wf(),
    ensures
        a < b ==> group_count(families, (a + 1) as nat) <= group_count(families, b as nat)
            && storage_count(families, (a + 1) as nat) <= storage_count(families, b as nat),
        group_count(families, (a + 1) as nat) == group_count(families, a as nat)
            + families[a].spec_arities().len(),
        storage_count(families, (a + 1) as nat) == storage_count(families, a as nat)
            + families[a].spec_components().len(),
        group_count(families, (a + 1) as nat) <= group_count(families, families.len()),
        storage_count(families, (a + 1) as nat) <= storage_count(families, families.len()),
        storage_count(families, families.len()) <= 16 * families.len(),
        families.len() <= group_count(families, families.len()),
{
    lemma_family_bounds(families, a, a + 1);
    if a < b {
        lemma_family_bounds(families, a, b);
    }
    lemma_counts(families, 0, families.len());
}

/// The groups that a layout asks for, over storages that hold no entity,
/// keep the group discipline.
pub proof fn lemma_groups_laid_out<T>(
    families: Seq<GroupFamily>,
    groups: Seq<Group>,
    origins: Seq<Origin>,
    sets: Seq<SparseSetView<T>>,
)
    requires
        forall|f: int| 0 <= f < families.len() ==> (#[trigger] families[f]).wf(),
        group_count(families, families.len()) <= 32,
        groups_laid_out(families, groups, origins),
        groups.len() == group_count(families, families.len()),
        sets.len() == storage_count(families, families.len()),
        forall|j: int| 0 <= j < sets.len() ==> #[trigger] sets[j] == SparseSetView::<T>::empty(),
    ensures
        disciplined(sets, groups),
{
    let count = sets.len();
    assert forall|g: int| 0 <= g < groups.len() implies {
        &&& groups[g].metadata.storage_start == storage_count(families, origins[g].family as nat)
        &&& groups[g].metadata.new_storage_start == storage_count(
            families,
            origins[g].family as nat,
        ) + prev_arity(families[origins[g].family].spec_arities(), origins[g].level)
        &&& groups[g].metadata.storage_end == storage_count(families, origins[g].family as nat)
            + families[origins[g].family].spec_arities()[origins[g].level]
        &&& groups[g].metadata.storage_end <= storage_count(
            families,
            (origins[g].family + 1) as nat,
        )
        &&& #[trigger] group_wf(groups, g, count)
    } by {
        let f = origins[g].family;
        let l = origins[g].level;
        lemma_decode(families, f, f);
        lemma_levels(families[f], l, l);
        assert(groups[g] == layout_group(families, f, l));
        if l > 0 {
            let h = g - 1;
            let fh = origins[h].family;
            lemma_decode(families, fh, f);
            lemma_decode(families, f, fh);
            assert(fh == f);
            assert(groups[h] == layout_group(families, f, l - 1));
            lemma_levels(families[f], l - 1, l);
        }
    }
    assert forall|a: int, b: int| 0 <= a < b < groups.len() implies if same_family(groups, a, b) {
        (#[trigger] groups[a]).metadata.storage_end <= (#[trigger] groups[b]).metadata.new_storage_start
    } else {
        groups[a].metadata.storage_end <= groups[b].metadata.storage_start
    } by {
        assert(group_wf(groups, a, count));
        assert(group_wf(groups, b, count));
        let fa = origins[a].family;
        let fb = origins[b].family;
        lemma_decode(families, fa, fb);
        lemma_decode(families, fb, fa);
        if fa == fb {
            lemma_levels(families[fa], origins[a].level, origins[b].level);
        }
    }
    assert forall|g: int, i: nat| 0 <= g < groups.len() && i < 32 implies (#[trigger] bit32(
        groups[g].metadata.skip_mask.0,
        i,
    ) <==> !(g <= i && i < groups.len() && same_family(groups, g, i as int))) by {
        assert(group_wf(groups, g, count));
        let f = origins[g].family;
        lemma_decode(families, f, f);
        let from = group_count(families, f as nat) + origins[g].level as nat;
        let to = group_count(families, (f + 1) as nat);
        lemma_range32(from, to, i);
        lemma_ops32(range32(from, to), 0, i);
        if i < groups.len() {
            assert(group_wf(groups, i as int, count));
            let fi = origins[i as int].family;
            lemma_decode(families, fi, f);
            lemma_decode(families, f, fi);
        }
    }
    assert(layout_wf(groups, count));
    assert forall|g: int| 0 <= g < groups.len() implies (#[trigger] groups[g]).len == 0 by {
        assert(groups[g] == layout_group(families, origins[g].family, origins[g].level));
    }
    assert forall|g: int| 0 <= g < groups.len() implies sorted(sets, #[trigger] groups[g]) by {
        assert(groups[g].len == 0);
    }
    assert forall|g: int, entity: Entity| 0 <= g < groups.len() implies #[trigger] exact(
        sets,
        groups[g],
        entity,
    ) by {
        assert(groups[g].len == 0);
        assert(group_wf(groups, g, count));
        assert(!sets[groups[g].start()].contains(entity));
        assert forall|j: int| groups[g].start() <= j < groups[g].end() implies !in_prefix(
            #[trigger] sets[j],
            groups[g].len,
            entity,
        ) by {}
    }
    assert forall|j: int| 0 <= j < sets.len() implies (#[trigger] sets[j]).wf() by {}
}

/// The group found at a level of a family is the group the layout asks
/// for there.
pub proof fn lemma_group_at(
    families: Seq<GroupFamily>,
    groups: Seq<Group>,
    origins: Seq<Origin>,
    family: int,
    level: int,
)
    requires
        forall|f: int| 0 <= f < families.len() ==> (#[trigger] families[f]).wf(),
        groups_laid_out(families, groups, origins),
        groups.len() == group_count(families, families.len()),
        0 <= family < families.len(),
        0 <= level < families[family].spec_arities().len(),
    ensures
        group_count(families, family as nat) + level < groups.len(),
        groups[group_count(families, family as nat) + level] == layout_group(
            families,
            family,
            level,
        ),
        origins[group_count(families, family as nat) + level].family == family,
        origins[group_count(families, family as nat) + level].level == level,
{
    lemma_decode(families, family, family);
    let g = group_count(families, family as nat) + level;
    let f = origins[g].family;
    lemma_decode(families, f, family);
    lemma_decode(families, family, f);
}

/// A registry entry that a layout asks for agrees with the groups that the
/// layout asks for.
pub proof fn lemma_entry_laid_out(
    families: Seq<GroupFamily>,
    groups: Seq<Group>,
    origins: Seq<Origin>,
    family: int,
    slot: int,
    level: int,
)
    requires
        forall|f: int| 0 <= f < families.len() ==> (#[trigger] families[f]).wf(),
        group_count(families, families.len()) <= 32,
        groups_laid_out(families, groups, origins),
        groups.len() == group_count(families, families.len()),
        0 <= family < families.len(),
        0 <= slot < families[family].spec_components().len(),
        level_of(families[family].spec_arities(), slot, level),
    ensures
        layout_metadata(families, family, slot, level).wf(
            groups,
            storage_count(families, families.len()),
        ),
        layout_metadata(families, family, slot, level).storage_index == storage_count(
            families,
            family as nat,
        ) + slot,
{
    let count = storage_count(families, families.len());
    let m = layout_metadata(families, family, slot, level);
    let first_group = group_count(families, family as nat);
    let next_group = group_count(families, (family + 1) as nat);
    let first = storage_count(families, family as nat);
    let arities = families[family].spec_arities();
    lemma_decode(families, family, family);
    lemma_levels(families[family], level, level);
    lemma_group_at(families, groups, origins, family, level);
    lemma_group_at(families, groups, origins, family, 0);
    lemma_levels(families[family], 0, level);
    assert forall|g: nat| g < 32 implies (#[trigger] m.delete_mask.has(g) <==> (g < groups.len()
        && groups[g as int].start() <= m.storage_index && m.storage_index
        < groups[g as int].end())) by {
        lemma_range32(first_group + level as nat, next_group, g);
        if g < groups.len() {
            let f = origins[g as int].family;
            let l = origins[g as int].level;
            lemma_decode(families, f, family);
            lemma_decode(families, family, f);
            lemma_levels(families[f], l, l);
            assert(groups[g as int] == layout_group(families, f, l));
            if f == family {
                if l < level {
                    lemma_levels(families[family], l, level);
                } else {
                    lemma_levels(families[family], level, l);
                }
            }
        }
    }
    assert forall|g: nat| g < 32 implies (#[trigger] m.insert_mask.has(g) <==> (g < groups.len()
        && m.group_end > 0 && same_family(groups, m.group_end - 1, g as int))) by {
        lemma_range32(first_group, next_group, g);
        if g < groups.len() {
            let f = origins[g as int].family;
            let l = origins[g as int].level;
            lemma_decode(families, f, family);
            lemma_decode(families, family, f);
            lemma_levels(families[f], l, l);
            assert(groups[g as int] == layout_group(families, f, l));
        }
    }
}

/// A registry that holds what a layout asks for agrees with the groups
/// that the layout asks for, and names each storage at most once.
pub proof fn lemma_registry_laid_out(
    families: Seq<GroupFamily>,
    groups: Seq<Group>,
    origins: Seq<Origin>,
    registry: Map<u64, ComponentMetadata>,
    sources: Map<u64, Origin>,
)
    requires
        forall|f: int| 0 <= f < families.len() ==> (#[trigger] families[f]).wf(),
        group_count(families, families.len()) <= 32,
        groups_laid_out(families, groups, origins),
        groups.len() == group_count(families, families.len()),
        registry_laid_out(families, registry, sources),
    ensures
        forall|key: u64|
            registry.contains_key(key) ==> (#[trigger] registry[key]).wf(
                groups,
                storage_count(families, families.len()),
            ),
        forall|a: u64, b: u64|
            registry.contains_key(a) && registry.contains_key(b) && a != b ==> (
            #[trigger] registry[a]).storage_index != (#[trigger] registry[b]).storage_index,
{
    assert forall|key: u64| registry.contains_key(key) implies (#[trigger] registry[key]).wf(
        groups,
        storage_count(families, families.len()),
    ) by {
        lemma_entry_laid_out(
            families,
            groups,
            origins,
            sources[key].family,
            sources[key].slot,
            sources[key].level,
        );
    }
    assert forall|a: u64, b: u64|
        registry.contains_key(a) && registry.contains_key(b) && a != b implies (
    #[trigger] registry[a]).storage_index != (#[trigger] registry[b]).storage_index by {
        let fa = sources[a].family;
        let fb = sources[b].family;
        lemma_entry_laid_out(families, groups, origins, fa, sources[a].slot, sources[a].level);
        lemma_entry_laid_out(families, groups, origins, fb, sources[b].slot, sources[b].level);
        lemma_decode(families, fa, fb);
        lemma_decode(families, fb, fa);
    }
}

/// A component slot of a valid family is first held by one level only.
pub proof fn lemma_level_unique(family: GroupFamily, slot: int, a: int, b: int)
    requires
        family.wf(),
        level_of(family.spec_arities(), slot, a),
        level_of(family.spec_arities(), slot, b),
    ensures
        a == b,
{
    if a < b {
        lemma_levels(family, a, b);
    } else if b < a {
        lemma_levels(family, b, a);
    }
}

/// Whether the layout names the component type with the given key.
pub open spec fn names(families: Seq<GroupFamily>, key: u64) -> bool {
    exists|f: int, c: int|
        0 <= f < families.len() && 0 <= c < families[f].spec_components().len()
            && #[trigger] families[f].spec_components()[c].0 == key
}

/// Whether the registry holds an entry for every component slot that comes
/// before slot `slot` of family `family`, `sources` saying so.
pub open spec fn registered_before(
    families: Seq<GroupFamily>,
    registry: Map<u64, ComponentMetadata>,
    sources: Map<u64, Origin>,
    family: int,
    slot: int,
) -> bool {
    forall|f: int, c: int|
        0 <= f < families.len() && 0 <= c < families[f].spec_components().len() && (f < family || (f
            == family && c < slot)) ==> {
            &&& registry.contains_key(#[trigger] families[f].spec_components()[c].0)
            &&& sources[families[f].spec_components()[c].0].family == f
            &&& sources[families[f].spec_components()[c].0].slot == c
        }
}

} // verus!
