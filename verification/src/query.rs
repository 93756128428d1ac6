//! Queries: sets of component views that are asked together which entities
//! they hold, and what those entities' components are.

use vstd::prelude::*;
use crate::entity::Entity;
use crate::group_info::CombinedGroupInfo;
use crate::sparse_set::SparseSetView;
use crate::view::Comp;

verus! {

/// The content of each of the views.
pub open spec fn contents<T>(views: Seq<Comp<T>>) -> Seq<SparseSetView<T>> {
    Seq::new(views.len(), |i: int| views[i]@)
}

/// Whether every one of the views is valid.
pub open spec fn all_valid<T>(views: Seq<Comp<T>>) -> bool {
    forall|i: int| 0 <= i < views.len() ==> (#[trigger] views[i]).wf()
}

/// Whether every one of the sets holds `entity`.
pub open spec fn held_by_all<T>(sets: Seq<SparseSetView<T>>, entity: Entity) -> bool {
    forall|i: int| 0 <= i < sets.len() ==> (#[trigger] sets[i]).contains(entity)
}

/// Whether none of the sets holds `entity`.
pub open spec fn held_by_none<T>(sets: Seq<SparseSetView<T>>, entity: Entity) -> bool {
    forall|i: int| 0 <= i < sets.len() ==> !(#[trigger] sets[i]).contains(entity)
}

/// What the group infos of the first `count` views combine to, starting
/// from `start`: nothing once a view has no group info or comes from another
/// family.
pub open spec fn combined_info<'a, T>(
    views: Seq<Comp<'a, T>>,
    start: CombinedGroupInfo<'a>,
    count: nat,
) -> Option<CombinedGroupInfo<'a>>
    decreases count,
{
    if count == 0 {
        Some(start)
    } else {
        match combined_info(views, start, (count - 1) as nat) {
            None => None,
            Some(so_far) => match views[count - 1].group_info {
                None => None,
                Some(info) => so_far.combined(info),
            },
        }
    }
}

/// One view as an element of a query.
pub trait QueryElement<T> {
    /// The content of the view.
    spec fn content(&self) -> SparseSetView<T>;

    /// Whether the view is valid.
    spec fn valid(&self) -> bool;

    /// Returns the number of components in the view.
    fn count(&self) -> (len: usize)
        requires
            self.valid(),
        ensures
            len == self.content().len(),
    ;

    /// Returns `true` if the view holds a component for `entity`.
    fn holds(&self, entity: Entity) -> (present: bool)
        requires
            self.valid(),
        ensures
            present == self.content().contains(entity),
    ;

    /// Returns the dense position of `entity` in the view, if any.
    fn position(&self, entity: Entity) -> (index: Option<usize>)
        requires
            self.valid(),
        ensures
            index == self.content().index_of(entity),
    ;
}

impl<'a, T> QueryElement<T> for Comp<'a, T> {
    open spec fn content(&self) -> SparseSetView<T> {
        self@
    }

    open spec fn valid(&self) -> bool {
        self.wf()
    }

    fn count(&self) -> (len: usize) {
        self.len()
    }

    fn holds(&self, entity: Entity) -> (present: bool) {
        self.contains(entity)
    }

    fn position(&self, entity: Entity) -> (index: Option<usize>) {
        self.get_index(entity)
    }
}

/// Views that narrow a query down without giving components: the query
/// produces an entity only if all included views hold it and no excluded
/// view does.
pub trait QueryModifier<'a, T> {
    /// The views of the modifier.
    spec fn parts(&self) -> Seq<Comp<'a, T>>;

    /// Returns `true` if every view holds `entity`.
    fn includes(&self, entity: Entity) -> (all: bool)
        requires
            all_valid(self.parts()),
        ensures
            all == held_by_all(contents(self.parts()), entity),
    ;

    /// Returns `true` if no view holds `entity`.
    fn excludes(&self, entity: Entity) -> (none: bool)
        requires
            all_valid(self.parts()),
        ensures
            none == held_by_none(contents(self.parts()), entity),
    ;

    /// Adds the group infos of the views to `info`. The result is `None` if
    /// some view has no group info or comes from another family.
    fn combine_group_info(&self, info: CombinedGroupInfo<'a>) -> (both: Option<
        CombinedGroupInfo<'a>,
    >)
        ensures
            both == combined_info(self.parts(), info, self.parts().len()),
    ;
}

impl<'a, T> QueryModifier<'a, T> for Vec<Comp<'a, T>> {
    open spec fn parts(&self) -> Seq<Comp<'a, T>> {
        self@
    }

    fn includes(&self, entity: Entity) -> (all: bool) {
        let mut i: usize = 0;
        while i < self.len()
            invariant
                i <= self.len(),
                all_valid(self@),
                forall|k: int| 0 <= k < i ==> (#[trigger] contents(self@)[k]).contains(entity),
            decreases self.len() - i,
        {
            assert(self@[i as int].wf());
            if !self[i].contains(entity) {
                assert(!contents(self@)[i as int].contains(entity));
                return false;
            }
            i = i + 1;
        }
        true
    }

    fn excludes(&self, entity: Entity) -> (none: bool) {
        let mut i: usize = 0;
        while i < self.len()
            invariant
                i <= self.len(),
                all_valid(self@),
                forall|k: int| 0 <= k < i ==> !(#[trigger] contents(self@)[k]).contains(entity),
            decreases self.len() - i,
        {
            assert(self@[i as int].wf());
            if self[i].contains(entity) {
                assert(contents(self@)[i as int].contains(entity));
                return false;
            }
            i = i + 1;
        }
        true
    }

    fn combine_group_info(&self, info: CombinedGroupInfo<'a>) -> (both: Option<
        CombinedGroupInfo<'a>,
    >) {
        let mut so_far = info;
        let mut i: usize = 0;
        while i < self.len()
            invariant
                i <= self.len(),
                combined_info(self@, info, i as nat) == Some(so_far),
            decreases self.len() - i,
        {
            let next = match self[i].group_info() {
                Some(found) => so_far.combine(found),
                None => None,
            };
            match next {
                Some(both) => {
                    so_far = both;
                },
                None => {
                    proof {
                        lemma_combined_info_fails(self@, info, (i + 1) as nat, self@.len());
                    }
                    return None;
                },
            }
            i = i + 1;
        }
        Some(so_far)
    }
}

/// Once the group infos of some views fail to combine, further views do not
/// mend it.
pub proof fn lemma_combined_info_fails<'a, T>(
    views: Seq<Comp<'a, T>>,
    start: CombinedGroupInfo<'a>,
    failed: nat,
    count: nat,
)
    requires
        failed <= count,
        combined_info(views, start, failed) is None,
    ensures
        combined_info(views, start, count) is None,
    decreases count,
{
    if failed < count {
        lemma_combined_info_fails(views, start, failed, (count - 1) as nat);
    }
}

/// Views that a query takes components from.
pub trait Query<'a, T> {
    /// The views of the query.
    spec fn views(&self) -> Seq<Comp<'a, T>>;

    /// Returns the dense position of `entity` in each view, if every view
    /// holds the entity.
    fn get_indexes(&self, entity: Entity) -> (indexes: Option<Vec<usize>>)
        requires
            all_valid(self.views()),
        ensures
            indexes is Some <==> held_by_all(contents(self.views()), entity),
            indexes matches Some(found) ==> found.len() == self.views().len() && forall|i: int|
                0 <= i < found.len() ==> Some(#[trigger] found[i]) == contents(
                    self.views(),
                )[i].index_of(entity),
    ;

    /// Returns the component that each view holds for `entity`, if every
    /// view holds the entity.
    fn get(&self, entity: Entity) -> (components: Option<Vec<&'a T>>)
        requires
            all_valid(self.views()),
        ensures
            components is Some <==> held_by_all(contents(self.views()), entity),
            components matches Some(found) ==> found.len() == self.views().len() && forall|
                i: int,
            |
                0 <= i < found.len() ==> Some(*#[trigger] found[i]) == contents(
                    self.views(),
                )[i].component(entity),
    ;

    /// Returns the index of a view that holds no more entities than any
    /// other, the first of them; `None` if there is no view.
    fn shortest(&self) -> (index: Option<usize>)
        requires
            all_valid(self.views()),
        ensures
            index is None <==> self.views().len() == 0,
            index matches Some(s) ==> s < self.views().len() && (forall|i: int|
                0 <= i < self.views().len() ==> contents(self.views())[s as int].len() <= (
                #[trigger] contents(self.views())[i]).len()) && (forall|i: int|
                0 <= i < s ==> contents(self.views())[s as int].len() < (#[trigger] contents(
                    self.views(),
                )[i]).len()),
    ;
}

impl<'a, T> Query<'a, T> for Vec<Comp<'a, T>> {
    open spec fn views(&self) -> Seq<Comp<'a, T>> {
        self@
    }

    fn get_indexes(&self, entity: Entity) -> (indexes: Option<Vec<usize>>) {
        let mut found: Vec<usize> = Vec::new();
        let mut i: usize = 0;
        while i < self.len()
            invariant
                i <= self.len(),
                all_valid(self@),
                found.len() == i,
                forall|k: int| 0 <= k < i ==> (#[trigger] contents(self@)[k]).contains(entity),
                forall|k: int|
                    0 <= k < i ==> Some(#[trigger] found[k]) == contents(self@)[k].index_of(entity),
            decreases self.len() - i,
        {
            assert(self@[i as int].wf());
            match self[i].get_index(entity) {
                Some(index) => {
                    found.push(index);
                },
                None => {
                    assert(!contents(self@)[i as int].contains(entity));
                    return None;
                },
            }
            i = i + 1;
        }
        Some(found)
    }

    fn get(&self, entity: Entity) -> (components: Option<Vec<&'a T>>) {
        let mut found: Vec<&'a T> = Vec::new();
        let mut i: usize = 0;
        while i < self.len()
            invariant
                i <= self.len(),
                all_valid(self@),
                found.len() == i,
                forall|k: int| 0 <= k < i ==> (#[trigger] contents(self@)[k]).contains(entity),
                forall|k: int|
                    0 <= k < i ==> Some(*#[trigger] found[k]) == contents(self@)[k].component(
                        entity,
                    ),
            decreases self.len() - i,
        {
            assert(self@[i as int].wf());
            match self[i].get(entity) {
                Some(component) => {
                    found.push(component);
                },
                None => {
                    assert(!contents(self@)[i as int].contains(entity));
                    return None;
                },
            }
            i = i + 1;
        }
        Some(found)
    }

    fn shortest(&self) -> (index: Option<usize>) {
        if self.len() == 0 {
            return None;
        }
        assert(self@[0].wf());
        let mut best: usize = 0;
        let mut least: usize = self[0].len();
        let mut i: usize = 1;
        while i < self.len()
            invariant
                1 <= i <= self.len(),
                all_valid(self@),
                best < i,
                least == contents(self@)[best as int].len(),
                forall|k: int| 0 <= k < i ==> least <= (#[trigger] contents(self@)[k]).len(),
                forall|k: int| 0 <= k < best ==> least < (#[trigger] contents(self@)[k]).len(),
            decreases self.len() - i,
        {
            assert(self@[i as int].wf());
            let len: usize = self[i].len();
            if len < least {
                best = i;
                least = len;
            }
            i = i + 1;
        }
        Some(best)
    }
}

} // verus!
