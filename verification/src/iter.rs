//! Composed queries and the two ways of iterating them: entity by entity
//! with sparse lookups, or slot by slot over a window of dense slots that
//! the views share.

use vstd::prelude::*;
use core::marker::PhantomData;
use core::ops::Range;
use crate::entity::Entity;
use crate::group_info::{group_range, ranged, CombinedGroupInfo};
use crate::query::{
    all_valid, combined_info, contents, held_by_all, held_by_none, Query, QueryModifier,
};
use crate::sparse_set::SparseSetView;
use crate::ticks::{ChangeTicks, ChangeTicksFilter, Ticks};
use crate::view::{Comp, SliceComponent};
use vstd::slice::slice_subrange;

verus! {

/// Whether the change ticks that each of the views holds for `entity` pass
/// the filter `F`, each view judged by the ticks it was borrowed with. Views
/// that do not hold the entity have no say.
pub open spec fn stamps_pass<T, F: ChangeTicksFilter>(views: Seq<Comp<T>>, entity: Entity) -> bool {
    forall|i: int|
        0 <= i < views.len() && (#[trigger] views[i])@.contains(entity) ==> F::passes(
            views[i]@.ticks[views[i]@.index_of(entity).unwrap() as int],
            views[i].world_tick,
            views[i].change_tick,
        )
}

/// Returns `true` if the change ticks of `entity` pass the filter `F` in
/// every view that holds the entity.
pub fn check_stamps<'a, T, F: ChangeTicksFilter>(views: &Vec<Comp<'a, T>>, entity: Entity) -> (pass:
    bool)
    requires
        all_valid(views@),
    ensures
        pass == stamps_pass::<T, F>(views@, entity),
{
    let mut i: usize = 0;
    while i < views.len()
        invariant
            i <= views.len(),
            all_valid(views@),
            forall|k: int|
                0 <= k < i && (#[trigger] views[k])@.contains(entity) ==> F::passes(
                    views[k]@.ticks[views[k]@.index_of(entity).unwrap() as int],
                    views[k].world_tick,
                    views[k].change_tick,
                ),
        decreases views.len() - i,
    {
        assert(views@[i as int].wf());
        match views[i].get_ticks(entity) {
            Some(ticks) => {
                let (world_tick, change_tick) = views[i].change_detection_ticks();
                if !F::matches(&ticks, world_tick, change_tick) {
                    assert(views[i as int]@.contains(entity));
                    return false;
                }
            },
            None => {},
        }
        i = i + 1;
    }
    true
}

/// A query: base views, whose components it produces; included views,
/// which must hold an entity for the query to produce it; and excluded
/// views, none of which may hold it.
#[derive(Debug)]
pub struct ComponentQuery<'a, T> {
    /// Views whose components are produced.
    pub base: Vec<Comp<'a, T>>,
    /// Views that must hold the entity.
    pub included: Vec<Comp<'a, T>>,
    /// Views that must not hold the entity.
    pub excluded: Vec<Comp<'a, T>>,
}

impl<'a, T> ComponentQuery<'a, T> {
    /// A query is valid if its views are.
    pub open spec fn wf(&self) -> bool {
        &&& all_valid(self.base@)
        &&& all_valid(self.included@)
        &&& all_valid(self.excluded@)
    }

    /// Whether the query produces `entity` under the filter `F`: every base
    /// and included view holds it, no excluded view does, and its base
    /// components pass the filter.
    pub open spec fn qualifies<F: ChangeTicksFilter>(&self, entity: Entity) -> bool {
        &&& held_by_all(contents(self.base@), entity)
        &&& held_by_all(contents(self.included@), entity)
        &&& held_by_none(contents(self.excluded@), entity)
        &&& stamps_pass::<T, F>(self.base@, entity)
    }

    /// Creates a query over the `base` views, with nothing included or
    /// excluded.
    pub fn new(base: Vec<Comp<'a, T>>) -> (query: Self)
        ensures
            query.base@ == base@,
            query.included@.len() == 0,
            query.excluded@.len() == 0,
    {
        ComponentQuery { base, included: Vec::new(), excluded: Vec::new() }
    }

    /// Asks that the entities produced be held by `views` too.
    pub fn including(self, views: Vec<Comp<'a, T>>) -> (query: Self)
        ensures
            query.base@ == self.base@,
            query.included@ == views@,
            query.excluded@ == self.excluded@,
    {
        ComponentQuery { base: self.base, included: views, excluded: self.excluded }
    }

    /// Asks that the entities produced be held by none of `views`.
    pub fn excluding(self, views: Vec<Comp<'a, T>>) -> (query: Self)
        ensures
            query.base@ == self.base@,
            query.included@ == self.included@,
            query.excluded@ == views@,
    {
        ComponentQuery { base: self.base, included: self.included, excluded: views }
    }

    /// Returns `true` if the query produces `entity` under the filter `F`.
    pub fn matches<F: ChangeTicksFilter>(&self, entity: Entity) -> (produced: bool)
        requires
            self.wf(),
        ensures
            produced == self.qualifies::<F>(entity),
    {
        self.excluded.excludes(entity) && self.included.includes(entity) && self.base.includes(
            entity,
        ) && check_stamps::<T, F>(&self.base, entity)
    }

    /// Returns the base components of `entity`, if the query produces the
    /// entity under the filter `F`.
    pub fn get<F: ChangeTicksFilter>(&self, entity: Entity) -> (components: Option<Vec<&'a T>>)
        requires
            self.wf(),
        ensures
            components is Some <==> self.qualifies::<F>(entity),
            components matches Some(found) ==> found.len() == self.base@.len() && forall|i: int|
                0 <= i < found.len() ==> Some(*#[trigger] found[i]) == contents(
                    self.base@,
                )[i].component(entity),
    {
        if self.excluded.excludes(entity) && self.included.includes(entity) && check_stamps::<
            T,
            F,
        >(&self.base, entity) {
            self.base.get(entity)
        } else {
            None
        }
    }

    /// The group infos of base, included and excluded views, each combined
    /// from nothing, if each of the three combines.
    pub open spec fn infos(&self) -> Option<
        (CombinedGroupInfo<'a>, CombinedGroupInfo<'a>, CombinedGroupInfo<'a>),
    > {
        let none = CombinedGroupInfo {
            group_family: None,
            max_group_offset: 0,
            storage_mask: crate::masks::StorageMask(0),
        };
        match (
            combined_info(self.base@, none, self.base@.len()),
            combined_info(self.included@, none, self.included@.len()),
            combined_info(self.excluded@, none, self.excluded@.len()),
        ) {
            (Some(base), Some(included), Some(excluded)) => Some((base, included, excluded)),
            _ => None,
        }
    }

    /// Combines the group infos of base, included and excluded views.
    pub fn group_infos(&self) -> (infos: Option<
        (CombinedGroupInfo<'a>, CombinedGroupInfo<'a>, CombinedGroupInfo<'a>),
    >)
        ensures
            infos == self.infos(),
    {
        let base = self.base.combine_group_info(CombinedGroupInfo::empty());
        let included = self.included.combine_group_info(CombinedGroupInfo::empty());
        let excluded = self.excluded.combine_group_info(CombinedGroupInfo::empty());
        match (base, included, excluded) {
            (Some(base), Some(included), Some(excluded)) => Some((base, included, excluded)),
            _ => None,
        }
    }

    /// The window of dense slots that the views of the query share, if the
    /// views form a group of one family.
    pub open spec fn window(&self) -> Option<Range<usize>> {
        match self.infos() {
            None => None,
            Some((base, included, excluded)) => ranged(base, included, excluded),
        }
    }

    /// Returns the window of dense slots that the views of the query share,
    /// if the views form a group of one family. Within the window the query
    /// can be iterated slot by slot, with no sparse lookup.
    pub fn group_range(&self) -> (range: Option<Range<usize>>)
        ensures
            range == self.window(),
    {
        match self.group_infos() {
            None => None,
            Some((base, included, excluded)) => group_range(base, included, excluded),
        }
    }

    /// Whether every base view has the dense slots up to `end`.
    pub open spec fn covers(&self, end: usize) -> bool {
        forall|k: int| 0 <= k < self.base@.len() ==> end <= (#[trigger] self.base@[k])@.len()
    }

    /// Returns `true` if every base view has the dense slots up to `end`.
    pub fn has_slots(&self, end: usize) -> (covered: bool)
        requires
            self.wf(),
        ensures
            covered == self.covers(end),
    {
        let mut k: usize = 0;
        while k < self.base.len()
            invariant
                k <= self.base.len(),
                self.wf(),
                forall|i: int| 0 <= i < k ==> end <= (#[trigger] self.base@[i])@.len(),
            decreases self.base.len() - k,
        {
            assert(self.base@[k as int].wf());
            if self.base[k].len() < end {
                return false;
            }
            k = k + 1;
        }
        true
    }

    /// Whether the change ticks in dense slot `slot` of every base view pass
    /// the filter `F`.
    pub open spec fn slot_passes<F: ChangeTicksFilter>(&self, slot: int) -> bool {
        forall|k: int|
            0 <= k < self.base@.len() ==> F::passes(
                (#[trigger] self.base@[k])@.ticks[slot],
                self.base@[k].world_tick,
                self.base@[k].change_tick,
            )
    }

    /// Returns `true` if the change ticks in dense slot `slot` of every base
    /// view pass the filter `F`.
    pub fn check_slot<F: ChangeTicksFilter>(&self, slot: usize) -> (pass: bool)
        requires
            self.wf(),
            self.covers((slot + 1) as usize),
            slot < usize::MAX,
        ensures
            pass == self.slot_passes::<F>(slot as int),
    {
        let mut k: usize = 0;
        while k < self.base.len()
            invariant
                k <= self.base.len(),
                self.wf(),
                self.covers((slot + 1) as usize),
                slot < usize::MAX,
                forall|i: int|
                    0 <= i < k ==> F::passes(
                        (#[trigger] self.base@[i])@.ticks[slot as int],
                        self.base@[i].world_tick,
                        self.base@[i].change_tick,
                    ),
            decreases self.base.len() - k,
        {
            assert(self.base@[k as int].wf());
            assert(slot + 1 <= self.base@[k as int]@.len());
            let (_, _, data) = self.base[k].split();
            let (world_tick, change_tick) = self.base[k].change_detection_ticks();
            if !F::matches(&data.ticks[slot], world_tick, change_tick) {
                return false;
            }
            k = k + 1;
        }
        true
    }

    /// Returns the components in dense slot `slot` of the base views.
    pub fn slot_components(&self, slot: usize) -> (components: Vec<&'a T>)
        requires
            self.wf(),
            self.covers((slot + 1) as usize),
            slot < usize::MAX,
        ensures
            components.len() == self.base@.len(),
            forall|k: int|
                0 <= k < components.len() ==> *#[trigger] components[k]
                    == self.base@[k]@.data[slot as int],
    {
        let mut components: Vec<&'a T> = Vec::new();
        let mut k: usize = 0;
        while k < self.base.len()
            invariant
                k <= self.base.len(),
                self.wf(),
                self.covers((slot + 1) as usize),
                slot < usize::MAX,
                components.len() == k,
                forall|i: int|
                    0 <= i < k ==> *#[trigger] components[i] == self.base@[i]@.data[slot as int],
            decreases self.base.len() - k,
        {
            assert(self.base@[k as int].wf());
            assert(slot + 1 <= self.base@[k as int]@.len());
            let (_, _, data) = self.base[k].split();
            components.push(&data.components[slot]);
            k = k + 1;
        }
        components
    }
}

/// Iterator over a query that looks every entity up: it walks a slice of
/// entities and produces those that the query produces.
pub struct SparseIter<'q, 'a, T, F> {
    query: &'q ComponentQuery<'a, T>,
    entities: Option<&'a [Entity]>,
    index: usize,
    filter: PhantomData<F>,
}

impl<'q, 'a, T, F: ChangeTicksFilter> SparseIter<'q, 'a, T, F> {
    /// The query iterated.
    pub closed spec fn query(&self) -> ComponentQuery<'a, T> {
        *self.query
    }

    /// The entities walked.
    pub closed spec fn entities(&self) -> Seq<Entity> {
        match self.entities {
            Some(entities) => entities@,
            None => Seq::empty(),
        }
    }

    /// Position of the next entity to look at.
    pub closed spec fn index(&self) -> int {
        self.index as int
    }

    /// Creates an iterator over `query` that walks `entities` from the
    /// start.
    pub fn new(query: &'q ComponentQuery<'a, T>, entities: &'a [Entity]) -> (iter: Self)
        ensures
            iter.query() == *query,
            iter.entities() == entities@,
            iter.index() == 0,
    {
        SparseIter { query, entities: Some(entities), index: 0, filter: PhantomData }
    }

    /// Creates an iterator over `query` that has no entity to walk.
    pub fn empty(query: &'q ComponentQuery<'a, T>) -> (iter: Self)
        ensures
            iter.query() == *query,
            iter.entities().len() == 0,
            iter.index() == 0,
    {
        SparseIter { query, entities: None, index: 0, filter: PhantomData }
    }

    /// Produces the next entity that the query produces, with its base
    /// components, and steps past it; `None` once no entity is left.
    pub fn next_with_entity(&mut self) -> (item: Option<(Entity, Vec<&'a T>)>)
        requires
            old(self).query().wf(),
            old(self).index() <= old(self).entities().len(),
        ensures
            final(self).query() == old(self).query(),
            final(self).entities() == old(self).entities(),
            old(self).index() <= final(self).index() <= old(self).entities().len(),
            match item {
                Some(found) => {
                    &&& old(self).index() < final(self).index()
                    &&& found.0 == old(self).entities()[final(self).index() - 1]
                    &&& old(self).query().qualifies::<F>(found.0)
                    &&& forall|p: int|
                        old(self).index() <= p < final(self).index() - 1 ==> !old(
                            self,
                        ).query().qualifies::<F>(#[trigger] old(self).entities()[p])
                    &&& found.1.len() == old(self).query().base@.len()
                    &&& forall|k: int|
                        0 <= k < found.1.len() ==> Some(*#[trigger] found.1[k]) == contents(
                            old(self).query().base@,
                        )[k].component(found.0)
                },
                None => {
                    &&& final(self).index() == old(self).entities().len()
                    &&& forall|p: int|
                        old(self).index() <= p < old(self).entities().len() ==> !old(
                            self,
                        ).query().qualifies::<F>(#[trigger] old(self).entities()[p])
                },
            },
    {
        let entities = match self.entities {
            Some(entities) => entities,
            None => {
                return None;
            },
        };
        while self.index < entities.len()
            invariant
                self.entities == Some(entities),
                self.query() == old(self).query(),
                self.entities() == old(self).entities(),
                self.query().wf(),
                old(self).index() <= self.index() <= self.entities().len(),
                forall|p: int|
                    old(self).index() <= p < self.index() ==> !self.query().qualifies::<F>(
                        #[trigger] self.entities()[p],
                    ),
            decreases entities.len() - self.index,
        {
            let entity: Entity = entities[self.index];
            self.index = self.index + 1;
            match self.query.get::<F>(entity) {
                Some(components) => {
                    return Some((entity, components));
                },
                None => {},
            }
        }
        None
    }

    /// Produces the base components of the next entity that the query
    /// produces, and steps past it; `None` once no entity is left.
    pub fn next(&mut self) -> (item: Option<Vec<&'a T>>)
        requires
            old(self).query().wf(),
            old(self).index() <= old(self).entities().len(),
        ensures
            final(self).query() == old(self).query(),
            final(self).entities() == old(self).entities(),
            old(self).index() <= final(self).index() <= old(self).entities().len(),
            match item {
                Some(found) => {
                    &&& old(self).index() < final(self).index()
                    &&& old(self).query().qualifies::<F>(
                        old(self).entities()[final(self).index() - 1],
                    )
                    &&& forall|p: int|
                        old(self).index() <= p < final(self).index() - 1 ==> !old(
                            self,
                        ).query().qualifies::<F>(#[trigger] old(self).entities()[p])
                    &&& found.len() == old(self).query().base@.len()
                    &&& forall|k: int|
                        0 <= k < found.len() ==> Some(*#[trigger] found[k]) == contents(
                            old(self).query().base@,
                        )[k].component(old(self).entities()[final(self).index() - 1])
                },
                None => {
                    &&& final(self).index() == old(self).entities().len()
                    &&& forall|p: int|
                        old(self).index() <= p < old(self).entities().len() ==> !old(
                            self,
                        ).query().qualifies::<F>(#[trigger] old(self).entities()[p])
                },
            },
    {
        match self.next_with_entity() {
            Some((_, components)) => Some(components),
            None => None,
        }
    }
}

/// Iterator over a query whose views share a window of dense slots: it
/// walks the window and produces the slots whose change ticks pass the
/// filter, with no sparse lookup.
pub struct DenseIter<'q, 'a, T, F> {
    query: &'q ComponentQuery<'a, T>,
    entities: &'a [Entity],
    index: usize,
    end: usize,
    filter: PhantomData<F>,
}

impl<'q, 'a, T, F: ChangeTicksFilter> DenseIter<'q, 'a, T, F> {
    /// The query iterated.
    pub closed spec fn query(&self) -> ComponentQuery<'a, T> {
        *self.query
    }

    /// The entities of the first base view.
    pub closed spec fn entities(&self) -> Seq<Entity> {
        self.entities@
    }

    /// The next dense slot to look at.
    pub closed spec fn index(&self) -> int {
        self.index as int
    }

    /// One past the last dense slot of the window.
    pub closed spec fn end(&self) -> int {
        self.end as int
    }

    /// The iterator stays within the dense slots that every base view has.
    pub open spec fn wf(&self) -> bool {
        &&& self.query().wf()
        &&& self.end() <= usize::MAX
        &&& self.end() <= self.entities().len()
        &&& self.query().covers(self.end() as usize)
    }

    /// Creates an iterator over the dense slots `range` of `query`, whose
    /// first base view holds `entities`.
    pub fn new(query: &'q ComponentQuery<'a, T>, entities: &'a [Entity], range: Range<usize>) -> (iter:
        Self)
        ensures
            iter.query() == *query,
            iter.entities() == entities@,
            iter.index() == range.start,
            iter.end() == range.end,
    {
        DenseIter { query, entities, index: range.start, end: range.end, filter: PhantomData }
    }

    /// Produces the entity and the base components of the next dense slot
    /// whose change ticks pass the filter, and steps past it; `None` once the
    /// window is exhausted.
    pub fn next_with_entity(&mut self) -> (item: Option<(Entity, Vec<&'a T>)>)
        requires
            old(self).wf(),
        ensures
            final(self).query() == old(self).query(),
            final(self).entities() == old(self).entities(),
            final(self).end() == old(self).end(),
            old(self).index() <= final(self).index(),
            match item {
                Some(found) => {
                    &&& old(self).index() < final(self).index() <= old(self).end()
                    &&& found.0 == old(self).entities()[final(self).index() - 1]
                    &&& old(self).query().slot_passes::<F>(final(self).index() - 1)
                    &&& forall|p: int|
                        old(self).index() <= p < final(self).index() - 1 ==> !#[trigger] old(
                            self,
                        ).query().slot_passes::<F>(p)
                    &&& found.1.len() == old(self).query().base@.len()
                    &&& forall|k: int|
                        0 <= k < found.1.len() ==> *#[trigger] found.1[k] == old(
                            self,
                        ).query().base@[k]@.data[final(self).index() - 1]
                },
                None => {
                    &&& forall|p: int|
                        old(self).index() <= p < old(self).end() ==> !#[trigger] old(
                            self,
                        ).query().slot_passes::<F>(p)
                },
            },
    {
        while self.index < self.end
            invariant
                self.query() == old(self).query(),
                self.entities() == old(self).entities(),
                self.end() == old(self).end(),
                self.wf(),
                old(self).index() <= self.index(),
                forall|p: int|
                    old(self).index() <= p < self.index() ==> !#[trigger] self.query().slot_passes::<
                        F,
                    >(p),
            decreases self.end - self.index,
        {
            let slot: usize = self.index;
            self.index = self.index + 1;
            proof {
                assert forall|k: int| 0 <= k < self.query().base@.len() implies slot + 1 <= (
                #[trigger] self.query().base@[k])@.len() by {
                    assert(self.end() <= self.query().base@[k]@.len());
                }
            }
            if self.query.check_slot::<F>(slot) {
                let entity: Entity = self.entities[slot];
                let components = self.query.slot_components(slot);
                return Some((entity, components));
            }
        }
        None
    }
}

/// The way a query is iterated.
pub enum QueryIter<'q, 'a, T, F> {
    /// Entity by entity, with sparse lookups.
    Sparse(SparseIter<'q, 'a, T, F>),
    /// Slot by slot over the window that the views share.
    Dense(DenseIter<'q, 'a, T, F>),
}

impl<'a, T> ComponentQuery<'a, T> {
    /// Whether the query is iterated over a window of dense slots: its views
    /// share one, and every base view has the slots of the window.
    pub open spec fn is_dense(&self) -> bool {
        &&& self.base@.len() > 0
        &&& self.window() matches Some(range)
        &&& range.start <= range.end
        &&& self.covers(range.end)
    }

    /// Starts an iteration of the query. If the views form a group, the
    /// iteration walks the window of dense slots that the views share;
    /// otherwise it walks the entities of the base view that holds the fewest
    /// and looks each up in the other views. A query without base views
    /// produces nothing.
    pub fn iter<'q, F: ChangeTicksFilter>(&'q self) -> (iter: QueryIter<'q, 'a, T, F>)
        requires
            self.wf(),
        ensures
            match iter {
                QueryIter::Dense(dense) => {
                    &&& self.is_dense()
                    &&& dense.wf()
                    &&& dense.query() == *self
                    &&& dense.entities() == self.base@[0]@.entities
                    &&& dense.index() == self.window().unwrap().start
                    &&& dense.end() == self.window().unwrap().end
                },
                QueryIter::Sparse(sparse) => {
                    &&& !self.is_dense()
                    &&& sparse.query() == *self
                    &&& sparse.index() == 0
                    &&& self.base@.len() == 0 ==> sparse.entities().len() == 0
                    &&& self.base@.len() > 0 ==> exists|k: int|
                        0 <= k < self.base@.len() && sparse.entities() == (
                        #[trigger] self.base@[k])@.entities && forall|i: int|
                            0 <= i < self.base@.len() ==> self.base@[k]@.len() <= (
                            #[trigger] contents(self.base@)[i]).len()
                },
            },
    {
        let shortest = match self.base.shortest() {
            Some(shortest) => shortest,
            None => {
                return QueryIter::Sparse(SparseIter::empty(self));
            },
        };
        match self.group_range() {
            Some(range) => {
                if range.start <= range.end && self.has_slots(range.end) {
                    assert(self.base@[0].wf());
                    let (entities, _, _) = self.base[0].split();
                    return QueryIter::Dense(DenseIter::new(self, entities, range));
                }
            },
            None => {},
        }
        assert(self.base@[shortest as int].wf());
        let (entities, _, _) = self.base[shortest].split();
        proof {
            assert(contents(self.base@)[shortest as int] == self.base@[shortest as int]@);
        }
        QueryIter::Sparse(SparseIter::new(self, entities))
    }
}

impl<'a, T> ComponentQuery<'a, T> {
    /// Whether the dense slots `range` can be sliced out of the query: the
    /// query is iterated over a window of dense slots, and the range lies
    /// within the window.
    pub open spec fn can_slice(&self, range: Range<usize>) -> bool {
        &&& self.is_dense()
        &&& self.window().unwrap().start <= range.start
        &&& range.start <= range.end
        &&& range.end <= self.window().unwrap().end
    }

    /// Returns the entities in the dense slots `range` and, for each base
    /// view, the components in those slots. This is possible only for a query
    /// whose views form a group, and within the window that they share; the
    /// result is `None` otherwise.
    pub fn slice(&self, range: Range<usize>) -> (slices: Option<(&'a [Entity], Vec<&'a [T]>)>)
        requires
            self.wf(),
        ensures
            slices is Some <==> self.can_slice(range),
            slices matches Some(found) ==> {
                &&& found.0@ == self.base@[0]@.entities.subrange(
                    range.start as int,
                    range.end as int,
                )
                &&& found.1.len() == self.base@.len()
                &&& forall|k: int|
                    0 <= k < found.1.len() ==> (#[trigger] found.1[k])@
                        == self.base@[k]@.data.subrange(range.start as int, range.end as int)
            },
    {
        if self.base.len() == 0 {
            return None;
        }
        let window = match self.group_range() {
            Some(window) => window,
            None => {
                return None;
            },
        };
        if !(window.start <= window.end && self.has_slots(window.end)) {
            return None;
        }
        if !(window.start <= range.start && range.start <= range.end && range.end <= window.end) {
            return None;
        }
        assert(self.base@[0].wf());
        assert(window.end <= self.base@[0]@.len());
        let entities = slice_subrange(self.base[0].entities(), range.start, range.end);
        let mut components: Vec<&'a [T]> = Vec::new();
        let mut k: usize = 0;
        while k < self.base.len()
            invariant
                k <= self.base.len(),
                self.wf(),
                self.covers(window.end),
                range.start <= range.end <= window.end,
                components.len() == k,
                forall|i: int|
                    0 <= i < k ==> (#[trigger] components[i])@ == self.base@[i]@.data.subrange(
                        range.start as int,
                        range.end as int,
                    ),
            decreases self.base.len() - k,
        {
            assert(self.base@[k as int].wf());
            assert(window.end <= self.base@[k as int]@.len());
            components.push(slice_subrange(self.base[k].components(), range.start, range.end));
            k = k + 1;
        }
        Some((entities, components))
    }
}

impl<'q, 'a, T, F: ChangeTicksFilter> QueryIter<'q, 'a, T, F> {
    /// The iterator can take a step.
    pub open spec fn wf(&self) -> bool {
        match self {
            QueryIter::Sparse(sparse) => sparse.query().wf() && sparse.index()
                <= sparse.entities().len(),
            QueryIter::Dense(dense) => dense.wf(),
        }
    }

    /// Whether the iteration walks a window of dense slots.
    pub open spec fn is_dense(&self) -> bool {
        self is Dense
    }

    /// Takes a step of the iteration, in the way the iteration was started:
    /// see [`SparseIter::next_with_entity`] and
    /// [`DenseIter::next_with_entity`].
    pub fn next_with_entity(&mut self) -> (item: Option<(Entity, Vec<&'a T>)>)
        requires
            old(self).wf(),
        ensures
            final(self).wf(),
            final(self).is_dense() == old(self).is_dense(),
            match (*old(self), *final(self)) {
                (QueryIter::Sparse(before), QueryIter::Sparse(after)) => {
                    &&& after.query() == before.query()
                    &&& after.entities() == before.entities()
                    &&& before.index() <= after.index() <= before.entities().len()
                    &&& match item {
                        Some(found) => {
                            &&& before.index() < after.index()
                            &&& found.0 == before.entities()[after.index() - 1]
                            &&& before.query().qualifies::<F>(found.0)
                            &&& forall|p: int|
                                before.index() <= p < after.index() - 1
                                    ==> !before.query().qualifies::<F>(
                                    #[trigger] before.entities()[p],
                                )
                            &&& found.1.len() == before.query().base@.len()
                            &&& forall|k: int|
                                0 <= k < found.1.len() ==> Some(*#[trigger] found.1[k])
                                    == contents(before.query().base@)[k].component(found.0)
                        },
                        None => {
                            &&& after.index() == before.entities().len()
                            &&& forall|p: int|
                                before.index() <= p < before.entities().len()
                                    ==> !before.query().qualifies::<F>(
                                    #[trigger] before.entities()[p],
                                )
                        },
                    }
                },
                (QueryIter::Dense(before), QueryIter::Dense(after)) => {
                    &&& after.query() == before.query()
                    &&& after.entities() == before.entities()
                    &&& after.end() == before.end()
                    &&& before.index() <= after.index()
                    &&& match item {
                        Some(found) => {
                            &&& before.index() < after.index() <= before.end()
                            &&& found.0 == before.entities()[after.index() - 1]
                            &&& before.query().slot_passes::<F>(after.index() - 1)
                            &&& forall|p: int|
                                before.index() <= p < after.index() - 1
                                    ==> !#[trigger] before.query().slot_passes::<F>(p)
                            &&& found.1.len() == before.query().base@.len()
                            &&& forall|k: int|
                                0 <= k < found.1.len() ==> *#[trigger] found.1[k]
                                    == before.query().base@[k]@.data[after.index() - 1]
                        },
                        None => forall|p: int|
                            before.index() <= p < before.end()
                                ==> !#[trigger] before.query().slot_passes::<F>(p),
                    }
                },
                _ => false,
            },
    {
        match self {
            QueryIter::Sparse(sparse) => sparse.next_with_entity(),
            QueryIter::Dense(dense) => dense.next_with_entity(),
        }
    }
}

} // verus!
