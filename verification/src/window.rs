//! Why a query may walk a window of dense slots: for views drawn from a
//! storage that keeps the group discipline, the window that the group infos
//! point to holds exactly the entities that the query asks for.

use vstd::prelude::*;
use crate::entity::Entity;
use crate::group::{
    disciplined, exact, group_wf, in_all, in_prefix, layout_wf, same_family, sorted, Group,
};
use crate::group_info::{
    family_of, groups_of, lemma_common_of_three, max3, shared_window, CombinedGroupInfo,
};
use crate::iter::ComponentQuery;
use crate::masks::{bit16, lemma_ops16, lemma_range16, range16, StorageMask};
use crate::query::{combined_info, contents, held_by_all, held_by_none};
use crate::registry::ComponentMetadata;
use crate::sparse_set::SparseSetView;
use crate::view::{info_agrees, Comp};

verus! {

/// Whether the views are views over storages of `sets`, `metas` saying for
/// each view which storage it is over and what group it belongs to.
pub open spec fn drawn<T>(
    views: Seq<Comp<T>>,
    metas: Seq<ComponentMetadata>,
    sets: Seq<SparseSetView<T>>,
    groups: Seq<Group>,
) -> bool {
    &&& metas.len() == views.len()
    &&& forall|k: int|
        0 <= k < views.len() ==> {
            &&& (#[trigger] metas[k]).wf(groups, sets.len())
            &&& views[k]@ == sets[metas[k].storage_index as int]
            &&& info_agrees(views[k].group_info, metas[k], groups)
        }
}

/// Offset, within its family, of the first group that a grouped component
/// type takes part in.
pub open spec fn offset_of(metadata: ComponentMetadata) -> int {
    metadata.group_end - 1 - metadata.group_start
}

/// Whether one of the first `count` component types has storage bit `bit`.
pub open spec fn covered(metas: Seq<ComponentMetadata>, count: nat, bit: nat) -> bool {
    exists|k: int| 0 <= k < count && (#[trigger] metas[k]).storage_mask.has(bit)
}

/// What the combined group info of views drawn from a storage says: every
/// view is grouped, all in the family named; the offset is the largest among
/// the views and is reached by one of them; and the storage mask holds
/// exactly the storage bits of the views.
pub proof fn lemma_combined_info<'a, T>(
    views: Seq<Comp<'a, T>>,
    metas: Seq<ComponentMetadata>,
    sets: Seq<SparseSetView<T>>,
    groups: Seq<Group>,
    start: CombinedGroupInfo<'a>,
    count: nat,
)
    requires
        drawn(views, metas, sets, groups),
        count <= views.len(),
        start.group_family is None,
        start.max_group_offset == 0,
        start.storage_mask.0 == 0,
        combined_info(views, start, count) is Some,
    ensures
        count == 0 ==> combined_info(views, start, count).unwrap() == start,
        count > 0 ==> combined_info(views, start, count).unwrap().group_family is Some
            && combined_info(views, start, count).unwrap().group_family.unwrap().groups@
            == groups,
        forall|k: int|
            0 <= k < count ==> {
                &&& (#[trigger] metas[k]).storage_mask.0 != 0
                &&& metas[k].group_end > metas[k].group_start
                &&& metas[k].group_start == combined_info(
                    views,
                    start,
                    count,
                ).unwrap().group_family.unwrap().family
                &&& offset_of(metas[k]) <= combined_info(views, start, count).unwrap().max_group_offset
            },
        count > 0 ==> exists|k: int|
            0 <= k < count && offset_of(#[trigger] metas[k]) == combined_info(
                views,
                start,
                count,
            ).unwrap().max_group_offset,
        forall|bit: nat|
            combined_info(views, start, count).unwrap().storage_mask.has(bit) <==> #[trigger] covered(
                metas,
                count,
                bit,
            ),
    decreases count,
{
    let result = combined_info(views, start, count).unwrap();
    if count == 0 {
        assert forall|bit: nat| result.storage_mask.has(bit) <==> #[trigger] covered(
            metas,
            count,
            bit,
        ) by {
            lemma_ops16(0, 0, bit);
        }
    } else {
        let last = count - 1;
        let before = combined_info(views, start, last as nat).unwrap();
        lemma_combined_info(views, metas, sets, groups, start, last as nat);
        let info = views[last].group_info.unwrap();
        assert(metas[last].wf(groups, sets.len()));
        assert(result == before.combined(info).unwrap());
        assert forall|k: int| 0 <= k < count implies {
            &&& (#[trigger] metas[k]).storage_mask.0 != 0
            &&& metas[k].group_end > metas[k].group_start
            &&& metas[k].group_start == result.group_family.unwrap().family
            &&& offset_of(metas[k]) <= result.max_group_offset
        } by {
            if k < last {
                assert(metas[k].group_start == before.group_family.unwrap().family);
            }
        }
        if last > 0 {
            let reached = choose|k: int|
                0 <= k < last && offset_of(#[trigger] metas[k]) == before.max_group_offset;
            if before.max_group_offset >= info.group_offset {
                assert(0 <= reached < count && offset_of(metas[reached])
                    == result.max_group_offset);
            } else {
                assert(0 <= last < count && offset_of(metas[last]) == result.max_group_offset);
            }
        } else {
            assert(0 <= last < count && offset_of(metas[last]) == result.max_group_offset);
        }
        assert forall|bit: nat| result.storage_mask.has(bit) <==> #[trigger] covered(
            metas,
            count,
            bit,
        ) by {
            if last > 0 {
                lemma_ops16(before.storage_mask.0, info.storage_mask.0, bit);
            } else {
                lemma_ops16(0, 0, bit);
            }
            assert(before.storage_mask.has(bit) <==> covered(metas, last as nat, bit));
            if covered(metas, count, bit) {
                let k = choose|k: int| 0 <= k < count && (#[trigger] metas[k]).storage_mask.has(bit);
                if k < last {
                    assert(covered(metas, last as nat, bit));
                }
            }
            if covered(metas, last as nat, bit) {
                let k = choose|k: int| 0 <= k < last && (#[trigger] metas[k]).storage_mask.has(bit);
                assert(0 <= k < count && metas[k].storage_mask.has(bit));
            }
            if info.storage_mask.has(bit) {
                assert(0 <= last < count && metas[last].storage_mask.has(bit));
            }
        }
    }
}

/// Where the storage of a grouped component type lies with respect to a
/// group of its family that is the first to hold the type, or a later one:
/// within the group, at the position that the type's storage bit names.
pub proof fn lemma_storage_bit(metadata: ComponentMetadata, groups: Seq<Group>, count: nat, g: int)
    requires
        layout_wf(groups, count),
        metadata.wf(groups, count),
        metadata.group_end > metadata.group_start,
        metadata.group_end - 1 <= g < groups.len(),
        same_family(groups, metadata.group_start as int, g),
    ensures
        groups[g].start() <= metadata.storage_index < groups[g].end(),
        metadata.group_end - 1 < g ==> metadata.storage_index < groups[g].fresh(),
        metadata.group_end - 1 == g ==> groups[g].fresh() <= metadata.storage_index,
        forall|bit: nat|
            metadata.storage_mask.has(bit) <==> bit == metadata.storage_index - groups[g].start(),
{
    let f = metadata.group_end - 1;
    assert(group_wf(groups, f, count));
    assert(group_wf(groups, g, count));
    if f < g {
        assert(same_family(groups, f, g));
    }
    let c = (metadata.storage_index - groups[f].start()) as nat;
    assert forall|bit: nat| metadata.storage_mask.has(bit) <==> bit == c by {
        lemma_range16(c, c + 1, bit);
    }
}

/// A storage mask that holds a bit is not empty.
pub proof fn lemma_mask_not_empty(mask: StorageMask, bit: nat)
    requires
        mask.has(bit),
    ensures
        mask.0 != 0,
{
    lemma_ops16(0, 0, bit);
}

/// Whether a component type of either list has storage bit `bit`.
pub open spec fn covered_by_either(
    first: Seq<ComponentMetadata>,
    second: Seq<ComponentMetadata>,
    bit: nat,
) -> bool {
    covered(first, first.len(), bit) || covered(second, second.len(), bit)
}

/// Whether every one of the component types is grouped in the family that
/// starts at group `family`, in a group no later than `g`.
pub open spec fn grouped_up_to(metas: Seq<ComponentMetadata>, family: int, g: int) -> bool {
    forall|k: int|
        0 <= k < metas.len() ==> {
            &&& (#[trigger] metas[k]).group_end > metas[k].group_start
            &&& metas[k].group_start == family
            &&& metas[k].group_end - 1 <= g
        }
}

/// If the storage bits of two lists of views are together exactly the bits
/// `low..high`, counted from the first storage of a group, then the views
/// are over exactly the storages that those bits name: every such storage
/// holds an entity exactly if every view does.
pub proof fn lemma_views_cover<T>(
    first: Seq<Comp<T>>,
    first_metas: Seq<ComponentMetadata>,
    second: Seq<Comp<T>>,
    second_metas: Seq<ComponentMetadata>,
    sets: Seq<SparseSetView<T>>,
    groups: Seq<Group>,
    family: int,
    g: int,
    low: nat,
    high: nat,
)
    requires
        layout_wf(groups, sets.len()),
        drawn(first, first_metas, sets, groups),
        drawn(second, second_metas, sets, groups),
        0 <= family <= g < groups.len(),
        same_family(groups, family, g),
        grouped_up_to(first_metas, family, g),
        grouped_up_to(second_metas, family, g),
        low <= high <= groups[g].end() - groups[g].start(),
        forall|bit: nat|
            (low <= bit && bit < high) <==> #[trigger] covered_by_either(
                first_metas,
                second_metas,
                bit,
            ),
    ensures
        forall|k: int|
            0 <= k < first.len() ==> groups[g].start() + low <= (
            #[trigger] first_metas[k]).storage_index < groups[g].start() + high,
        forall|k: int|
            0 <= k < second.len() ==> groups[g].start() + low <= (
            #[trigger] second_metas[k]).storage_index < groups[g].start() + high,
        forall|entity: Entity| #[trigger]
            in_all(sets, groups[g].start() + low, groups[g].start() + high, entity) <==> held_by_all(
                contents(first),
                entity,
            ) && held_by_all(contents(second), entity),
{
    let start = groups[g].start();
    assert(group_wf(groups, g, sets.len()));
    assert forall|k: int| 0 <= k < first.len() implies start + low <= (
    #[trigger] first_metas[k]).storage_index < start + high by {
        lemma_storage_bit(first_metas[k], groups, sets.len(), g);
        let bit = (first_metas[k].storage_index - start) as nat;
        assert(first_metas[k].storage_mask.has(bit));
        assert(covered(first_metas, first_metas.len(), bit));
        assert(covered_by_either(first_metas, second_metas, bit));
    }
    assert forall|k: int| 0 <= k < second.len() implies start + low <= (
    #[trigger] second_metas[k]).storage_index < start + high by {
        lemma_storage_bit(second_metas[k], groups, sets.len(), g);
        let bit = (second_metas[k].storage_index - start) as nat;
        assert(second_metas[k].storage_mask.has(bit));
        assert(covered(second_metas, second_metas.len(), bit));
        assert(covered_by_either(first_metas, second_metas, bit));
    }
    assert forall|entity: Entity| #[trigger]
        in_all(sets, start + low, start + high, entity) <==> held_by_all(contents(first), entity)
            && held_by_all(contents(second), entity) by {
        if in_all(sets, start + low, start + high, entity) {
            assert forall|k: int| 0 <= k < first.len() implies (#[trigger] contents(
                first,
            )[k]).contains(entity) by {
                assert(start + low <= first_metas[k].storage_index < start + high);
                assert(sets[first_metas[k].storage_index as int].contains(entity));
            }
            assert forall|k: int| 0 <= k < second.len() implies (#[trigger] contents(
                second,
            )[k]).contains(entity) by {
                assert(start + low <= second_metas[k].storage_index < start + high);
                assert(sets[second_metas[k].storage_index as int].contains(entity));
            }
        }
        if held_by_all(contents(first), entity) && held_by_all(contents(second), entity) {
            assert forall|j: int| start + low <= j < start + high implies (
            #[trigger] sets[j]).contains(entity) by {
                let bit = (j - start) as nat;
                assert(covered_by_either(first_metas, second_metas, bit));
                if covered(first_metas, first_metas.len(), bit) {
                    let k = choose|k: int|
                        0 <= k < first_metas.len() && (#[trigger] first_metas[k]).storage_mask.has(
                            bit,
                        );
                    lemma_storage_bit(first_metas[k], groups, sets.len(), g);
                    assert(contents(first)[k].contains(entity));
                } else {
                    let k = choose|k: int|
                        0 <= k < second_metas.len() && (
                        #[trigger] second_metas[k]).storage_mask.has(bit);
                    lemma_storage_bit(second_metas[k], groups, sets.len(), g);
                    assert(contents(second)[k].contains(entity));
                }
            }
        }
    }
}

/// Whether `entity` is one that a window of dense slots of the query
/// holds: every base view and every included view holds it, and the excluded
/// views, if there are any, do not all hold it. With at most one excluded
/// view this is what the query asks for.
pub open spec fn asked_in_window<T>(query: ComponentQuery<T>, entity: Entity) -> bool {
    &&& held_by_all(contents(query.base@), entity)
    &&& held_by_all(contents(query.included@), entity)
    &&& (query.excluded@.len() == 0 || !held_by_all(contents(query.excluded@), entity))
}

/// With at most one excluded view, the entities that a window holds are the
/// entities that every base and included view holds and no excluded view
/// holds.
pub proof fn lemma_asked<T>(query: ComponentQuery<T>, entity: Entity)
    requires
        query.excluded@.len() <= 1,
    ensures
        asked_in_window(query, entity) <==> held_by_all(contents(query.base@), entity)
            && held_by_all(contents(query.included@), entity) && held_by_none(
            contents(query.excluded@),
            entity,
        ),
{
    if query.excluded@.len() == 1 {
        let only = contents(query.excluded@)[0];
        if held_by_none(contents(query.excluded@), entity) {
            assert(!only.contains(entity));
        }
        if !held_by_all(contents(query.excluded@), entity) {
            assert(!only.contains(entity));
        }
    }
}

/// The storages that the base and included views of the query cover, and
/// those that its excluded views cover, as the group infos of the views say.
pub open spec fn query_mask<T>(query: ComponentQuery<T>) -> crate::masks::QueryMask {
    crate::masks::QueryMask {
        included: StorageMask(
            query.infos().unwrap().0.storage_mask.0 | query.infos().unwrap().1.storage_mask.0,
        ),
        excluded: query.infos().unwrap().2.storage_mask,
    }
}

/// The window that a query mask selects at group `g` of the family that
/// starts at group `family`.
pub open spec fn window_at(
    groups: Seq<Group>,
    family: int,
    g: int,
    mask: crate::masks::QueryMask,
) -> Option<core::ops::Range<usize>> {
    if mask == groups[g].metadata.include_mask {
        Some(0usize..groups[g].len)
    } else if g > family && mask == groups[g].metadata.exclude_mask {
        Some(groups[g].len..groups[g - 1].len)
    } else {
        None
    }
}

/// What the group infos of a query drawn from a storage come to: the
/// views are all grouped in one family, in groups up to group `g`; the query
/// mask holds exactly the storage bits of the views; and the window of the
/// query is the window that the mask selects at group `g`.
pub open spec fn framed<T>(
    query: ComponentQuery<T>,
    base_metas: Seq<ComponentMetadata>,
    included_metas: Seq<ComponentMetadata>,
    excluded_metas: Seq<ComponentMetadata>,
    groups: Seq<Group>,
    family: int,
    g: int,
) -> bool {
    &&& 0 <= family <= g < groups.len()
    &&& same_family(groups, family, g)
    &&& grouped_up_to(base_metas, family, g)
    &&& grouped_up_to(included_metas, family, g)
    &&& grouped_up_to(excluded_metas, family, g)
    &&& forall|bit: nat|
        query_mask(query).included.has(bit) <==> #[trigger] covered_by_either(
            base_metas,
            included_metas,
            bit,
        )
    &&& forall|bit: nat|
        query_mask(query).excluded.has(bit) <==> #[trigger] covered_by_either(
            excluded_metas,
            Seq::empty(),
            bit,
        )
    &&& query.window() == window_at(groups, family, g, query_mask(query))
}

/// The group that the window of a query is read from.
pub open spec fn window_group<T>(query: ComponentQuery<T>) -> int {
    query.infos().unwrap().0.group_family.unwrap().family + max3(
        query.infos().unwrap().0.max_group_offset,
        query.infos().unwrap().1.max_group_offset,
        query.infos().unwrap().2.max_group_offset,
    )
}

/// The group infos of a query drawn from a storage, whose views share a
/// window, are framed by the family of the base views and the group that
/// the window is read from.
pub proof fn lemma_framed<T>(
    query: ComponentQuery<T>,
    base_metas: Seq<ComponentMetadata>,
    included_metas: Seq<ComponentMetadata>,
    excluded_metas: Seq<ComponentMetadata>,
    sets: Seq<SparseSetView<T>>,
    groups: Seq<Group>,
)
    requires
        layout_wf(groups, sets.len()),
        drawn(query.base@, base_metas, sets, groups),
        drawn(query.included@, included_metas, sets, groups),
        drawn(query.excluded@, excluded_metas, sets, groups),
        query.base@.len() > 0,
        query.window() is Some,
    ensures
        framed(
            query,
            base_metas,
            included_metas,
            excluded_metas,
            groups,
            query.infos().unwrap().0.group_family.unwrap().family as int,
            window_group(query),
        ),
{
    let none = CombinedGroupInfo {
        group_family: None,
        max_group_offset: 0,
        storage_mask: StorageMask(0),
    };
    let base = query.base@;
    let included = query.included@;
    let excluded = query.excluded@;
    let b = combined_info(base, none, base.len()).unwrap();
    let i = combined_info(included, none, included.len()).unwrap();
    let x = combined_info(excluded, none, excluded.len()).unwrap();
    assert(query.infos() == Some((b, i, x)));
    lemma_combined_info(base, base_metas, sets, groups, none, base.len());
    lemma_combined_info(included, included_metas, sets, groups, none, included.len());
    lemma_combined_info(excluded, excluded_metas, sets, groups, none, excluded.len());
    lemma_common_of_three(family_of(b), family_of(i), family_of(x));
    assert(groups_of(b, i, x) == groups);
    let found = b.group_family.unwrap();
    let family = found.family as int;
    let offset = max3(b.max_group_offset, i.max_group_offset, x.max_group_offset);
    let g = family + offset;
    assert(g < groups.len());
    assert(query.window() == shared_window(groups, found.family, b, i, x));
    assert(same_family(groups, family, g) && family <= g) by {
        if offset == b.max_group_offset {
            let k = choose|k: int|
                0 <= k < base.len() && offset_of(#[trigger] base_metas[k]) == b.max_group_offset;
            assert(base_metas[k].wf(groups, sets.len()));
        } else if offset == i.max_group_offset {
            assert(included.len() > 0);
            let k = choose|k: int|
                0 <= k < included.len() && offset_of(#[trigger] included_metas[k])
                    == i.max_group_offset;
            assert(included_metas[k].wf(groups, sets.len()));
            assert(included_metas[k].group_start == family);
        } else {
            assert(excluded.len() > 0);
            let k = choose|k: int|
                0 <= k < excluded.len() && offset_of(#[trigger] excluded_metas[k])
                    == x.max_group_offset;
            assert(excluded_metas[k].wf(groups, sets.len()));
            assert(excluded_metas[k].group_start == family);
        }
    }
    assert(grouped_up_to(base_metas, family, g));
    assert(grouped_up_to(included_metas, family, g)) by {
        assert forall|k: int| 0 <= k < included_metas.len() implies {
            &&& (#[trigger] included_metas[k]).group_end > included_metas[k].group_start
            &&& included_metas[k].group_start == family
            &&& included_metas[k].group_end - 1 <= g
        } by {
            assert(offset_of(included_metas[k]) <= i.max_group_offset);
        }
    }
    assert(grouped_up_to(excluded_metas, family, g)) by {
        assert forall|k: int| 0 <= k < excluded_metas.len() implies {
            &&& (#[trigger] excluded_metas[k]).group_end > excluded_metas[k].group_start
            &&& excluded_metas[k].group_start == family
            &&& excluded_metas[k].group_end - 1 <= g
        } by {
            assert(offset_of(excluded_metas[k]) <= x.max_group_offset);
        }
    }
    assert forall|bit: nat|
        query_mask(query).included.has(bit) <==> #[trigger] covered_by_either(
            base_metas,
            included_metas,
            bit,
        ) by {
        lemma_ops16(b.storage_mask.0, i.storage_mask.0, bit);
        assert(b.storage_mask.has(bit) <==> covered(base_metas, base.len(), bit));
        assert(i.storage_mask.has(bit) <==> covered(included_metas, included.len(), bit));
    }
    assert forall|bit: nat|
        query_mask(query).excluded.has(bit) <==> #[trigger] covered_by_either(
            excluded_metas,
            Seq::empty(),
            bit,
        ) by {
        assert(x.storage_mask.has(bit) <==> covered(excluded_metas, excluded.len(), bit));
    }
}

/// Whether the dense slots `start..end` of the base views hold, slot by
/// slot, one entity in all base views, and hold exactly the entities that the
/// window should hold.
pub open spec fn window_holds<T>(query: ComponentQuery<T>, start: int, end: int) -> bool {
    &&& start <= end
    &&& forall|k: int| 0 <= k < query.base@.len() ==> end <= (#[trigger] query.base@[k])@.len()
    &&& forall|p: int|
        start <= p < end ==> asked_in_window(query, #[trigger] query.base@[0]@.entities[p])
            && forall|k: int|
            0 <= k < query.base@.len() ==> (#[trigger] query.base@[k])@.index_of(
                query.base@[0]@.entities[p],
            ) == Some(p as usize)
    &&& forall|entity: Entity| #[trigger]
        asked_in_window(query, entity) ==> query.base@[0]@.index_of(entity) is Some && start
            <= query.base@[0]@.index_of(entity).unwrap() < end
}

/// The window theorem where the views cover all the storages of a group:
/// the grouped entities of the group are the entities that every view
/// holds.
pub proof fn lemma_window_of_group<T>(
    query: ComponentQuery<T>,
    base_metas: Seq<ComponentMetadata>,
    included_metas: Seq<ComponentMetadata>,
    excluded_metas: Seq<ComponentMetadata>,
    sets: Seq<SparseSetView<T>>,
    groups: Seq<Group>,
    family: int,
    g: int,
)
    requires
        disciplined(sets, groups),
        drawn(query.base@, base_metas, sets, groups),
        drawn(query.included@, included_metas, sets, groups),
        drawn(query.excluded@, excluded_metas, sets, groups),
        query.base@.len() > 0,
        framed(query, base_metas, included_metas, excluded_metas, groups, family, g),
        query_mask(query) == groups[g].metadata.include_mask,
    ensures
        window_holds(query, 0, groups[g].len as int),
{
    let base = query.base@;
    let included = query.included@;
    let excluded = query.excluded@;
    let group = groups[g];
    let start = group.start();
    let arity = (group.end() - group.start()) as nat;
    assert(group_wf(groups, g, sets.len()));
    assert(sorted(sets, group));
    let first_meta = base_metas[0];
    assert(first_meta.wf(groups, sets.len()));
    lemma_storage_bit(first_meta, groups, sets.len(), g);
    let j0 = first_meta.storage_index as int;
    assert(base[0]@ == sets[j0]);
    assert(sets[j0].wf());
    assert forall|bit: nat| (0 <= bit && bit < arity) <==> #[trigger] covered_by_either(
        base_metas,
        included_metas,
        bit,
    ) by {
        lemma_range16(0, arity, bit);
        assert(query_mask(query).included.has(bit) <==> covered_by_either(
            base_metas,
            included_metas,
            bit,
        ));
    }
    if excluded.len() > 0 {
        assert(excluded_metas[0].wf(groups, sets.len()));
        lemma_storage_bit(excluded_metas[0], groups, sets.len(), g);
        let bit = (excluded_metas[0].storage_index - start) as nat;
        assert(covered(excluded_metas, excluded_metas.len(), bit));
        assert(covered_by_either(excluded_metas, Seq::empty(), bit));
        lemma_mask_not_empty(query_mask(query).excluded, bit);
    }
    lemma_views_cover(
        base,
        base_metas,
        included,
        included_metas,
        sets,
        groups,
        family,
        g,
        0,
        arity,
    );
    assert forall|p: int| 0 <= p < group.len implies asked_in_window(
        query,
        #[trigger] base[0]@.entities[p],
    ) && forall|k: int|
        0 <= k < base.len() ==> (#[trigger] base[k])@.index_of(base[0]@.entities[p]) == Some(
            p as usize,
        ) by {
        let entity = sets[j0].entities[p];
        sets[j0].lemma_index_of(entity, p);
        assert(in_prefix(sets[j0], group.len, entity));
        assert(exact(sets, group, entity));
        assert(in_all(sets, start + 0, start + arity, entity));
        assert forall|k: int| 0 <= k < base.len() implies (#[trigger] base[k])@.index_of(entity)
            == Some(p as usize) by {
            let j = base_metas[k].storage_index as int;
            assert(start + 0 <= j < start + arity);
            assert(sets[j].entities[p] == sets[start].entities[p]);
            assert(sets[j0].entities[p] == sets[start].entities[p]);
            assert(sets[j].wf());
            sets[j].lemma_index_of(entity, p);
        }
    }
    assert forall|entity: Entity| #[trigger]
        asked_in_window(query, entity) implies base[0]@.index_of(entity) is Some && 0
        <= base[0]@.index_of(entity).unwrap() < group.len by {
        assert(in_all(sets, start + 0, start + arity, entity));
        assert(exact(sets, group, entity));
        assert(in_prefix(sets[j0], group.len, entity));
    }
    assert forall|k: int| 0 <= k < base.len() implies group.len <= (#[trigger] base[k])@.len() by {
        let j = base_metas[k].storage_index as int;
        assert(start + 0 <= j < start + arity);
        assert(group.len <= sets[j].entities.len());
    }
}

/// The window theorem where the base and included views cover the storages
/// of one group and the excluded views the storages that the next group
/// adds: the entities grouped in the first group but not in the next are
/// the entities that every base and included view holds and that not all
/// excluded views hold.
pub proof fn lemma_window_between_groups<T>(
    query: ComponentQuery<T>,
    base_metas: Seq<ComponentMetadata>,
    included_metas: Seq<ComponentMetadata>,
    excluded_metas: Seq<ComponentMetadata>,
    sets: Seq<SparseSetView<T>>,
    groups: Seq<Group>,
    family: int,
    g: int,
)
    requires
        disciplined(sets, groups),
        drawn(query.base@, base_metas, sets, groups),
        drawn(query.included@, included_metas, sets, groups),
        drawn(query.excluded@, excluded_metas, sets, groups),
        query.base@.len() > 0,
        framed(query, base_metas, included_metas, excluded_metas, groups, family, g),
        query_mask(query) == groups[g].metadata.exclude_mask,
        g > family,
    ensures
        window_holds(query, groups[g].len as int, groups[g - 1].len as int),
{
    let base = query.base@;
    let included = query.included@;
    let excluded = query.excluded@;
    let group = groups[g];
    let start = group.start();
    let arity = (group.end() - group.start()) as nat;
    let fresh = (group.fresh() - group.start()) as nat;
    let empty_views = Seq::<Comp<T>>::empty();
    let empty_metas = Seq::<ComponentMetadata>::empty();
    assert(group_wf(groups, g, sets.len()));
    assert(sorted(sets, group));
    let first_meta = base_metas[0];
    assert(first_meta.wf(groups, sets.len()));
    lemma_storage_bit(first_meta, groups, sets.len(), g);
    let j0 = first_meta.storage_index as int;
    assert(base[0]@ == sets[j0]);
    assert(sets[j0].wf());
    assert forall|bit: nat| (0 <= bit && bit < fresh) <==> #[trigger] covered_by_either(
        base_metas,
        included_metas,
        bit,
    ) by {
        lemma_range16(0, fresh, bit);
        assert(query_mask(query).included.has(bit) <==> covered_by_either(
            base_metas,
            included_metas,
            bit,
        ));
    }
    assert forall|bit: nat| (fresh <= bit && bit < arity) <==> #[trigger] covered_by_either(
        excluded_metas,
        empty_metas,
        bit,
    ) by {
        lemma_range16(fresh, arity, bit);
        assert(query_mask(query).excluded.has(bit) <==> covered_by_either(
            excluded_metas,
            empty_metas,
            bit,
        ));
    }
    let first_bit = (j0 - start) as nat;
    assert(covered(base_metas, base_metas.len(), first_bit));
    assert(covered_by_either(base_metas, included_metas, first_bit));
    assert(fresh > 0);
    let h = g - 1;
    let earlier = groups[h];
    assert(group_wf(groups, h, sets.len()));
    assert(same_family(groups, h, g));
    assert(earlier.end() == group.fresh());
    assert(earlier.start() == start);
    assert(sorted(sets, earlier));
    assert(group.len <= earlier.len);
    assert(drawn(empty_views, empty_metas, sets, groups));
    assert(grouped_up_to(empty_metas, family, g));
    lemma_views_cover(
        base,
        base_metas,
        included,
        included_metas,
        sets,
        groups,
        family,
        g,
        0,
        fresh,
    );
    lemma_views_cover(
        excluded,
        excluded_metas,
        empty_views,
        empty_metas,
        sets,
        groups,
        family,
        g,
        fresh,
        arity,
    );
    assert(covered_by_either(excluded_metas, empty_metas, fresh));
    assert(excluded.len() > 0);
    lemma_split_range(sets, start, group.fresh(), group.end());
    assert forall|p: int| group.len <= p < earlier.len implies asked_in_window(
        query,
        #[trigger] base[0]@.entities[p],
    ) && forall|k: int|
        0 <= k < base.len() ==> (#[trigger] base[k])@.index_of(base[0]@.entities[p]) == Some(
            p as usize,
        ) by {
        assert(start + 0 <= j0 < start + fresh);
        assert(earlier.len <= sets[j0].entities.len());
        let entity = sets[j0].entities[p];
        sets[j0].lemma_index_of(entity, p);
        assert(in_prefix(sets[j0], earlier.len, entity));
        assert(!in_prefix(sets[j0], group.len, entity));
        assert(exact(sets, earlier, entity));
        assert(exact(sets, group, entity));
        assert(in_all(sets, start, earlier.end(), entity));
        assert(in_all(sets, start + 0, start + fresh, entity));
        assert(!in_all(sets, start, group.end(), entity));
        assert(in_all(sets, start, group.end(), entity) <==> in_all(
            sets,
            start,
            group.fresh(),
            entity,
        ) && in_all(sets, group.fresh(), group.end(), entity));
        assert(!in_all(sets, start + fresh, start + arity, entity));
        assert(held_by_all(contents(empty_views), entity));
        assert forall|k: int| 0 <= k < base.len() implies (#[trigger] base[k])@.index_of(entity)
            == Some(p as usize) by {
            let j = base_metas[k].storage_index as int;
            assert(start + 0 <= j < start + fresh);
            assert(sets[j].entities[p] == sets[start].entities[p]);
            assert(sets[j0].entities[p] == sets[start].entities[p]);
            assert(sets[j].wf());
            assert(earlier.len <= sets[j].entities.len());
            sets[j].lemma_index_of(entity, p);
        }
    }
    assert forall|entity: Entity| #[trigger]
        asked_in_window(query, entity) implies base[0]@.index_of(entity) is Some && group.len
        <= base[0]@.index_of(entity).unwrap() < earlier.len by {
        assert(start + 0 <= j0 < start + fresh);
        assert(held_by_all(contents(empty_views), entity));
        assert(in_all(sets, start + 0, start + fresh, entity));
        assert(!in_all(sets, start + fresh, start + arity, entity));
        assert(in_all(sets, start, group.end(), entity) <==> in_all(
            sets,
            start,
            group.fresh(),
            entity,
        ) && in_all(sets, group.fresh(), group.end(), entity));
        assert(in_all(sets, start, earlier.end(), entity));
        assert(!in_all(sets, start, group.end(), entity));
        assert(exact(sets, earlier, entity));
        assert(exact(sets, group, entity));
        assert(in_prefix(sets[j0], earlier.len, entity));
        assert(!in_prefix(sets[j0], group.len, entity));
    }
    assert forall|k: int| 0 <= k < base.len() implies earlier.len <= (#[trigger] base[k])@.len() by {
        let j = base_metas[k].storage_index as int;
        assert(start + 0 <= j < start + fresh);
        assert(earlier.len <= sets[j].entities.len());
    }
}

/// Every storage of a range holds an entity exactly if every storage of
/// each of its two halves does.
pub proof fn lemma_split_range<T>(sets: Seq<SparseSetView<T>>, start: int, middle: int, end: int)
    requires
        start <= middle <= end,
    ensures
        forall|entity: Entity| #[trigger]
            in_all(sets, start, end, entity) <==> in_all(sets, start, middle, entity) && in_all(
                sets,
                middle,
                end,
                entity,
            ),
{
    assert forall|entity: Entity| #[trigger]
        in_all(sets, start, end, entity) <==> in_all(sets, start, middle, entity) && in_all(
            sets,
            middle,
            end,
            entity,
        ) by {
        if in_all(sets, start, end, entity) {
            assert forall|j: int| start <= j < middle implies (#[trigger] sets[j]).contains(
                entity,
            ) by {}
            assert forall|j: int| middle <= j < end implies (#[trigger] sets[j]).contains(entity) by {}
        }
        if in_all(sets, start, middle, entity) && in_all(sets, middle, end, entity) {
            assert forall|j: int| start <= j < end implies (#[trigger] sets[j]).contains(entity) by {
                if j < middle {
                    assert(sets[j].contains(entity));
                } else {
                    assert(sets[j].contains(entity));
                }
            }
        }
    }
}

/// The window theorem. For a query with base views, whose views are drawn
/// from storages that keep the group discipline, the window of dense slots
/// that the group infos point to has these properties: every base view has
/// the slots of the window; each slot of the window holds, in every base
/// view, one and the same entity, which is one the window should hold; and
/// every entity that the window should hold sits in a slot of the window. So
/// walking the window produces exactly those entities, each once, with no
/// sparse lookup.
pub proof fn lemma_window<T>(
    query: ComponentQuery<T>,
    base_metas: Seq<ComponentMetadata>,
    included_metas: Seq<ComponentMetadata>,
    excluded_metas: Seq<ComponentMetadata>,
    sets: Seq<SparseSetView<T>>,
    groups: Seq<Group>,
)
    requires
        disciplined(sets, groups),
        drawn(query.base@, base_metas, sets, groups),
        drawn(query.included@, included_metas, sets, groups),
        drawn(query.excluded@, excluded_metas, sets, groups),
        query.base@.len() > 0,
        query.window() is Some,
    ensures
        window_holds(
            query,
            query.window().unwrap().start as int,
            query.window().unwrap().end as int,
        ),
        query.covers(query.window().unwrap().end),
{
    lemma_framed(query, base_metas, included_metas, excluded_metas, sets, groups);
    let family = query.infos().unwrap().0.group_family.unwrap().family as int;
    let g = window_group(query);
    if query_mask(query) == groups[g].metadata.include_mask {
        lemma_window_of_group(
            query,
            base_metas,
            included_metas,
            excluded_metas,
            sets,
            groups,
            family,
            g,
        );
    } else {
        lemma_window_between_groups(
            query,
            base_metas,
            included_metas,
            excluded_metas,
            sets,
            groups,
            family,
            g,
        );
    }
}

} // verus!
