//! Component sparse set: a sparse vec paired with dense, parallel arrays of
//! entities, components and change ticks.

use vstd::prelude::*;
use crate::entity::Entity;
use crate::sparse_vec::{DenseEntity, SparseVec};
use crate::ticks::{ChangeTicks, Ticks};

verus! {

/// Mathematical content of a component sparse set.
pub struct SparseSetView<T> {
    /// Occupied sparse slots, keyed by entity index.
    pub sparse: Map<u32, DenseEntity>,
    /// Entities in dense order.
    pub entities: Seq<Entity>,
    /// Components in dense order; `data[i]` belongs to `entities[i]`.
    pub data: Seq<T>,
    /// Change ticks in dense order; `ticks[i]` belongs to `entities[i]`.
    pub ticks: Seq<ChangeTicks>,
}

impl<T> SparseSetView<T> {
    /// The set without any entity.
    pub open spec fn empty() -> Self {
        SparseSetView {
            sparse: Map::empty(),
            entities: Seq::empty(),
            data: Seq::empty(),
            ticks: Seq::empty(),
        }
    }

    /// Number of entities in the set.
    pub open spec fn len(self) -> nat {
        self.entities.len()
    }

    /// The dense arrays are parallel and the sparse slots are exactly the
    /// inverse of the dense entity list.
    pub open spec fn wf(self) -> bool {
        &&& self.entities.len() <= usize::MAX
        &&& self.data.len() == self.entities.len()
        &&& self.ticks.len() == self.entities.len()
        &&& forall|i: int|
            0 <= i < self.entities.len() ==> {
                &&& self.sparse.contains_key((#[trigger] self.entities[i]).index)
                &&& self.sparse[self.entities[i].index] == (DenseEntity {
                    dense: i as usize,
                    version: self.entities[i].version,
                })
            }
        &&& forall|k: u32| #[trigger]
            self.sparse.contains_key(k) ==> {
                &&& self.sparse[k].dense < self.entities.len()
                &&& self.entities[self.sparse[k].dense as int].index == k
            }
    }

    /// Whether some entity with sparse index `index` is in the set, whatever
    /// its version.
    pub open spec fn occupied(self, index: u32) -> bool {
        self.sparse.contains_key(index)
    }

    /// Dense position of `entity`, if the set holds it with that version.
    pub open spec fn index_of(self, entity: Entity) -> Option<usize> {
        if self.sparse.contains_key(entity.index) && self.sparse[entity.index].version
            == entity.version {
            Some(self.sparse[entity.index].dense)
        } else {
            None
        }
    }

    /// Whether the set holds `entity`.
    pub open spec fn contains(self, entity: Entity) -> bool {
        self.index_of(entity) is Some
    }

    /// The set after `insert(entity, value, tick)`.
    ///
    /// An entity already present keeps its position and its `added` tick; its
    /// component is overwritten and its `changed` tick becomes `tick`. An
    /// entity whose index is free is appended with `added == tick`. An entity
    /// whose index is taken by another version is refused: nothing changes.
    /// Nothing changes either if the set already holds as many entities as
    /// can be counted.
    pub open spec fn insert(self, entity: Entity, value: T, tick: Ticks) -> Self {
        match self.index_of(entity) {
            Some(i) => SparseSetView {
                sparse: self.sparse,
                entities: self.entities,
                data: self.data.update(i as int, value),
                ticks: self.ticks.update(i as int, self.ticks[i as int].with_changed(tick)),
            },
            None => if self.occupied(entity.index) || self.entities.len() >= usize::MAX {
                self
            } else {
                SparseSetView {
                    sparse: self.sparse.insert(
                        entity.index,
                        DenseEntity { dense: self.entities.len() as usize, version: entity.version },
                    ),
                    entities: self.entities.push(entity),
                    data: self.data.push(value),
                    ticks: self.ticks.push(ChangeTicks { added: tick, changed: 0 }),
                }
            },
        }
    }

    /// The component that `entity` maps to, if the set holds the entity.
    pub open spec fn component(self, entity: Entity) -> Option<T> {
        match self.index_of(entity) {
            Some(i) => Some(self.data[i as int]),
            None => None,
        }
    }

    /// The component and the change ticks that `entity` maps to, if the set
    /// holds the entity.
    pub open spec fn slot_of(self, entity: Entity) -> Option<(T, ChangeTicks)> {
        match self.index_of(entity) {
            Some(i) => Some((self.data[i as int], self.ticks[i as int])),
            None => None,
        }
    }

    /// Whether two sets hold the same entities with the same components and
    /// change ticks, in whatever order.
    pub open spec fn same_content(self, other: Self) -> bool {
        &&& self.entities.len() == other.entities.len()
        &&& forall|entity: Entity| #[trigger] self.slot_of(entity) == other.slot_of(entity)
    }

    /// The set after `remove(entity)`: the last dense slot takes the place of
    /// the entity's slot, and the entity's sparse slot is cleared. A set that
    /// does not hold the entity is unchanged.
    pub open spec fn remove(self, entity: Entity) -> Self {
        match self.index_of(entity) {
            Some(i) => {
                let moved = self.entities.last();
                SparseSetView {
                    sparse: self.sparse.insert(
                        moved.index,
                        DenseEntity { dense: i, version: moved.version },
                    ).remove(entity.index),
                    entities: self.entities.update(i as int, moved).drop_last(),
                    data: self.data.update(i as int, self.data.last()).drop_last(),
                    ticks: self.ticks.update(i as int, self.ticks.last()).drop_last(),
                }
            },
            None => self,
        }
    }

    /// The set after the dense slots `a` and `b` trade places.
    pub open spec fn swap(self, a: int, b: int) -> Self {
        SparseSetView {
            sparse: self.sparse.insert(
                self.entities[a].index,
                DenseEntity { dense: b as usize, version: self.entities[a].version },
            ).insert(
                self.entities[b].index,
                DenseEntity { dense: a as usize, version: self.entities[b].version },
            ),
            entities: self.entities.update(a, self.entities[b]).update(b, self.entities[a]),
            data: self.data.update(a, self.data[b]).update(b, self.data[a]),
            ticks: self.ticks.update(a, self.ticks[b]).update(b, self.ticks[a]),
        }
    }

    /// The set after the component of `entity` was handed out for mutation at
    /// `tick` and left as `value`.
    pub open spec fn mutate(self, entity: Entity, value: T, tick: Ticks) -> Self {
        match self.index_of(entity) {
            Some(i) => SparseSetView {
                sparse: self.sparse,
                entities: self.entities,
                data: self.data.update(i as int, value),
                ticks: self.ticks.update(i as int, self.ticks[i as int].with_changed(tick)),
            },
            None => self,
        }
    }

    /// In a well-formed set `index_of` is the inverse of the dense entity
    /// list: an entity has dense position `i` exactly if `entities[i]` is that
    /// entity. In particular no entity index occurs twice.
    pub proof fn lemma_index_of(self, entity: Entity, i: int)
        requires
            self.wf(),
        ensures
            (self.index_of(entity) == Some(i as usize) && 0 <= i <= usize::MAX) <==> (0 <= i
                < self.entities.len() && self.entities[i] == entity),
            self.index_of(entity) matches Some(d) ==> d < self.entities.len()
                && self.entities[d as int] == entity,
    {
        if 0 <= i < self.entities.len() && self.entities[i] == entity {
            assert(self.sparse.contains_key(self.entities[i].index));
        }
        if self.index_of(entity) is Some {
            assert(self.sparse.contains_key(entity.index));
        }
    }

    /// Two different dense slots never hold the same entity index.
    pub proof fn lemma_no_duplicate_index(self, i: int, j: int)
        requires
            self.wf(),
            0 <= i < self.entities.len(),
            0 <= j < self.entities.len(),
        ensures
            self.entities[i].index == self.entities[j].index ==> i == j,
    {
        assert(self.sparse.contains_key(self.entities[i].index));
        assert(self.sparse.contains_key(self.entities[j].index));
    }

    /// Inserting keeps the set well-formed.
    pub proof fn lemma_insert_wf(self, entity: Entity, value: T, tick: Ticks)
        requires
            self.wf(),
        ensures
            self.insert(entity, value, tick).wf(),
    {
        let after = self.insert(entity, value, tick);
        if self.index_of(entity) is None && !self.occupied(entity.index) && self.entities.len()
            < usize::MAX {
            assert forall|i: int| 0 <= i < after.entities.len() implies {
                &&& after.sparse.contains_key((#[trigger] after.entities[i]).index)
                &&& after.sparse[after.entities[i].index] == (DenseEntity {
                    dense: i as usize,
                    version: after.entities[i].version,
                })
            } by {
                if i < self.entities.len() {
                    assert(self.sparse.contains_key(self.entities[i].index));
                }
            }
            assert forall|k: u32| #[trigger] after.sparse.contains_key(k) implies {
                &&& after.sparse[k].dense < after.entities.len()
                &&& after.entities[after.sparse[k].dense as int].index == k
            } by {
                if k != entity.index {
                    assert(self.sparse.contains_key(k));
                }
            }
        }
    }

    /// Removing keeps the set well-formed.
    pub proof fn lemma_remove_wf(self, entity: Entity)
        requires
            self.wf(),
        ensures
            self.remove(entity).wf(),
            !self.remove(entity).occupied(entity.index) || !self.contains(entity),
    {
        let after = self.remove(entity);
        if let Some(d) = self.index_of(entity) {
            self.lemma_index_of(entity, d as int);
            let last = self.entities.len() - 1;
            let moved = self.entities.last();
            assert(self.sparse.contains_key(self.entities[last].index));
            assert forall|i: int| 0 <= i < after.entities.len() implies {
                &&& after.sparse.contains_key((#[trigger] after.entities[i]).index)
                &&& after.sparse[after.entities[i].index] == (DenseEntity {
                    dense: i as usize,
                    version: after.entities[i].version,
                })
            } by {
                assert(self.sparse.contains_key(self.entities[i].index));
                if i != d {
                    self.lemma_no_duplicate_index(i, d as int);
                    self.lemma_no_duplicate_index(i, last);
                }
            }
            assert forall|k: u32| #[trigger] after.sparse.contains_key(k) implies {
                &&& after.sparse[k].dense < after.entities.len()
                &&& after.entities[after.sparse[k].dense as int].index == k
            } by {
                if k != moved.index {
                    assert(self.sparse.contains_key(k));
                }
            }
        }
    }

    /// Swapping two dense slots keeps the set well-formed.
    pub proof fn lemma_swap_wf(self, a: int, b: int)
        requires
            self.wf(),
            0 <= a < self.entities.len(),
            0 <= b < self.entities.len(),
        ensures
            self.swap(a, b).wf(),
    {
        let after = self.swap(a, b);
        assert(self.sparse.contains_key(self.entities[a].index));
        assert(self.sparse.contains_key(self.entities[b].index));
        assert forall|i: int| 0 <= i < after.entities.len() implies {
            &&& after.sparse.contains_key((#[trigger] after.entities[i]).index)
            &&& after.sparse[after.entities[i].index] == (DenseEntity {
                dense: i as usize,
                version: after.entities[i].version,
            })
        } by {
            assert(self.sparse.contains_key(self.entities[i].index));
            if i != a {
                self.lemma_no_duplicate_index(i, a);
            }
            if i != b {
                self.lemma_no_duplicate_index(i, b);
            }
        }
        assert forall|k: u32| #[trigger] after.sparse.contains_key(k) implies {
            &&& after.sparse[k].dense < after.entities.len()
            &&& after.entities[after.sparse[k].dense as int].index == k
        } by {
            if k != self.entities[a].index && k != self.entities[b].index {
                assert(self.sparse.contains_key(k));
            }
        }
    }
}

/// Where a dense position ends up when the positions `a` and `b` trade
/// places.
pub open spec fn swapped(d: usize, a: usize, b: usize) -> usize {
    if d == a {
        b
    } else if d == b {
        a
    } else {
        d
    }
}

impl<T> SparseSetView<T> {
    /// Swapping two dense slots moves the two entities in them and leaves
    /// every other entity where it was; no entity enters or leaves the set.
    pub proof fn lemma_swap_index_of(self, a: usize, b: usize, entity: Entity)
        requires
            self.wf(),
            a < self.entities.len(),
            b < self.entities.len(),
        ensures
            self.swap(a as int, b as int).index_of(entity) == match self.index_of(entity) {
                Some(d) => Some(swapped(d, a, b)),
                None => None::<usize>,
            },
            self.swap(a as int, b as int).contains(entity) == self.contains(entity),
            self.swap(a as int, b as int).entities.len() == self.entities.len(),
            self.swap(a as int, b as int).slot_of(entity) == self.slot_of(entity),
    {
        self.lemma_index_of(entity, a as int);
        self.lemma_index_of(entity, b as int);
        assert(self.sparse.contains_key(self.entities[a as int].index));
        assert(self.sparse.contains_key(self.entities[b as int].index));
        self.lemma_no_duplicate_index(a as int, b as int);
    }

    /// Inserting an entity leaves the position of every other entity alone,
    /// and never takes an entity out of the set.
    pub proof fn lemma_insert_index_of(self, entity: Entity, value: T, tick: Ticks, other: Entity)
        requires
            self.wf(),
        ensures
            other != entity ==> self.insert(entity, value, tick).index_of(other) == self.index_of(
                other,
            ),
            self.index_of(entity) is Some ==> self.insert(entity, value, tick).index_of(entity)
                == self.index_of(entity),
            self.index_of(entity) is None && !self.occupied(entity.index) && self.entities.len()
                < usize::MAX ==> self.insert(entity, value, tick).index_of(entity) == Some(
                self.entities.len() as usize,
            ),
            self.index_of(entity) is None && (self.occupied(entity.index) || self.entities.len()
                >= usize::MAX) ==> self.insert(entity, value, tick).index_of(entity) is None,
            self.insert(entity, value, tick).entities.len() >= self.entities.len(),
            forall|i: int|
                0 <= i < self.entities.len() ==> self.insert(entity, value, tick).entities[i]
                    == self.entities[i],
    {
    }

    /// Removing an entity takes it out of the set, moves the entity of the
    /// last dense slot into its place and leaves every other entity where it
    /// was.
    pub proof fn lemma_remove_index_of(self, entity: Entity, other: Entity)
        requires
            self.wf(),
        ensures
            self.remove(entity).index_of(entity) is None,
            other != entity ==> self.remove(entity).index_of(other) == match self.index_of(other) {
                Some(d) => if self.index_of(entity) is Some && d == self.entities.len() - 1 {
                    self.index_of(entity)
                } else {
                    Some(d)
                },
                None => None::<usize>,
            },
            self.index_of(entity) matches Some(p) ==> {
                &&& self.remove(entity).entities.len() == self.entities.len() - 1
                &&& forall|i: int|
                    0 <= i < p ==> self.remove(entity).entities[i] == self.entities[i]
            },
            self.index_of(entity) is None ==> self.remove(entity) == self,
    {
        self.lemma_index_of(entity, 0);
        self.lemma_index_of(other, 0);
        if self.index_of(entity) is Some {
            let last = self.entities.len() - 1;
            assert(self.sparse.contains_key(self.entities[last].index));
            if let Some(d) = self.index_of(other) {
                self.lemma_no_duplicate_index(d as int, last);
                self.lemma_no_duplicate_index(d as int, self.index_of(entity)->0 as int);
            }
        }
    }
}

impl<T> SparseSetView<T> {
    /// Inserting for an entity changes the component and ticks of no other
    /// entity, and an entity whose index was free gets the component and
    /// fresh ticks.
    pub proof fn lemma_insert_slot_of(self, entity: Entity, value: T, tick: Ticks, other: Entity)
        requires
            self.wf(),
        ensures
            other != entity ==> self.insert(entity, value, tick).slot_of(other) == self.slot_of(
                other,
            ),
            !self.occupied(entity.index) && self.entities.len() < usize::MAX ==> self.insert(
                entity,
                value,
                tick,
            ).slot_of(entity) == Some((value, ChangeTicks { added: tick, changed: 0 }))
                && self.insert(entity, value, tick).entities.len() == self.entities.len() + 1,
    {
        self.lemma_insert_index_of(entity, value, tick, other);
        self.lemma_insert_index_of(entity, value, tick, entity);
        self.lemma_index_of(other, 0);
        self.lemma_index_of(entity, 0);
    }

    /// Removing an entity changes the component and ticks of no other
    /// entity.
    pub proof fn lemma_remove_slot_of(self, entity: Entity, other: Entity)
        requires
            self.wf(),
        ensures
            other != entity ==> self.remove(entity).slot_of(other) == self.slot_of(other),
            self.remove(entity).slot_of(entity) is None,
            self.contains(entity) ==> self.remove(entity).entities.len() == self.entities.len()
                - 1,
    {
        self.lemma_remove_index_of(entity, other);
        self.lemma_remove_index_of(entity, entity);
        self.lemma_index_of(other, 0);
        self.lemma_index_of(entity, 0);
    }

    /// Sets with the same content hold the same entities.
    pub proof fn lemma_same_content(self, other: Self, entity: Entity)
        requires
            self.same_content(other),
        ensures
            self.contains(entity) == other.contains(entity),
            self.component(entity) == other.component(entity),
    {
        assert(self.slot_of(entity) == other.slot_of(entity));
    }
}

/// Inserting a component for an entity whose index is free and then removing
/// the entity gives the component back and leaves the set exactly as it was.
pub proof fn lemma_insert_remove_roundtrip<T>(
    set: SparseSetView<T>,
    entity: Entity,
    value: T,
    tick: Ticks,
)
    requires
        set.wf(),
        set.len() < usize::MAX,
        !set.occupied(entity.index),
    ensures
        set.insert(entity, value, tick).component(entity) == Some(value),
        set.insert(entity, value, tick).remove(entity) == set,
{
    let mid = set.insert(entity, value, tick);
    let end = mid.remove(entity);
    assert(mid.index_of(entity) == Some(set.entities.len() as usize));
    assert(end.entities =~= set.entities);
    assert(end.data =~= set.data);
    assert(end.ticks =~= set.ticks);
    assert(end.sparse =~= set.sparse);
}

/// A component inserted at tick `added` for an entity whose index is free is
/// stamped `added`; a mutation at a later tick `changed` stamps `changed` and
/// keeps the insertion tick. The filters then report the slot by comparing
/// those two stamps with the tick at which the reader last ran.
pub proof fn lemma_change_ticks<T>(
    set: SparseSetView<T>,
    entity: Entity,
    value: T,
    mutated: T,
    added: Ticks,
    changed: Ticks,
    world_tick: Ticks,
    last_run: Ticks,
)
    requires
        set.wf(),
        set.len() < usize::MAX,
        !set.occupied(entity.index),
        changed > added,
    ensures
        ({
            let fresh = set.insert(entity, value, added);
            let later = fresh.mutate(entity, mutated, changed);
            let i = set.entities.len() as int;
            &&& fresh.index_of(entity) == Some(i as usize)
            &&& later.index_of(entity) == Some(i as usize)
            &&& fresh.ticks[i].added == added
            &&& later.ticks[i].added == added
            &&& later.ticks[i].changed == changed
            &&& later.data[i] == mutated
            &&& <crate::ticks::Added as crate::ticks::ChangeTicksFilter>::passes(
                later.ticks[i],
                world_tick,
                last_run,
            ) == (added >= last_run)
            &&& <crate::ticks::Changed as crate::ticks::ChangeTicksFilter>::passes(
                later.ticks[i],
                world_tick,
                last_run,
            ) == (changed >= last_run)
            &&& <crate::ticks::Passthrough as crate::ticks::ChangeTicksFilter>::passes(
                later.ticks[i],
                world_tick,
                last_run,
            )
        }),
{
}

/// Swaps the elements at positions `a` and `b` of `items`.
///
/// Calls `<[E]>::swap` of std, which trades the two elements and leaves every
/// other one in place; it panics when a position is out of bounds, which the
/// precondition rules out.
#[verifier::external_body]
pub(crate) fn swap_elements<E>(items: &mut Vec<E>, a: usize, b: usize)
    requires
        a < old(items)@.len(),
        b < old(items)@.len(),
    ensures
        final(items)@ == old(items)@.update(a as int, old(items)@[b as int]).update(
            b as int,
            old(items)@[a as int],
        ),
{
    items.swap(a, b);
}

/// Stores the components of one type: a sparse vec that finds an entity's
/// dense position, and dense arrays of entities, components and change ticks.
#[derive(Debug)]
pub struct ComponentSparseSet<T> {
    sparse: SparseVec,
    entities: Vec<Entity>,
    data: Vec<T>,
    ticks: Vec<ChangeTicks>,
}

impl<T> ComponentSparseSet<T> {
    /// The mathematical content of the set.
    pub closed spec fn view(&self) -> SparseSetView<T> {
        SparseSetView {
            sparse: self.sparse@,
            entities: self.entities@,
            data: self.data@,
            ticks: self.ticks@,
        }
    }

    /// The invariant of the set: see [`SparseSetView::wf`].
    pub open spec fn wf(&self) -> bool {
        self@.wf()
    }

    /// Creates an empty set.
    pub fn new() -> (set: Self)
        ensures
            set.wf(),
            set@ == SparseSetView::<T>::empty(),
    {
        ComponentSparseSet {
            sparse: SparseVec::new(),
            entities: Vec::new(),
            data: Vec::new(),
            ticks: Vec::new(),
        }
    }

    /// Returns the number of entities in the set.
    pub fn len(&self) -> (len: usize)
        requires
            self.wf(),
        ensures
            len == self@.len(),
    {
        self.entities.len()
    }

    /// Returns `true` if the set holds no entity.
    pub fn is_empty(&self) -> (empty: bool)
        requires
            self.wf(),
        ensures
            empty == (self@.len() == 0),
    {
        self.entities.len() == 0
    }

    /// Returns the dense position of `entity`, or `None` if the set does not
    /// hold the entity with that version.
    pub fn get_index(&self, entity: Entity) -> (index: Option<usize>)
        requires
            self.wf(),
        ensures
            index == self@.index_of(entity),
            index matches Some(i) ==> i < self@.len() && self@.entities[i as int] == entity,
    {
        proof {
            self@.lemma_index_of(entity, 0);
        }
        self.sparse.get(entity.index, entity.version)
    }

    /// Returns `true` if the set holds `entity`.
    pub fn contains(&self, entity: Entity) -> (present: bool)
        requires
            self.wf(),
        ensures
            present == self@.contains(entity),
    {
        self.sparse.contains(entity)
    }

    /// Returns the component of `entity`, if the set holds the entity.
    pub fn get(&self, entity: Entity) -> (component: Option<&T>)
        requires
            self.wf(),
        ensures
            match component {
                Some(c) => self@.component(entity) == Some(*c),
                None => self@.component(entity) is None,
            },
    {
        match self.get_index(entity) {
            Some(i) => Some(&self.data[i]),
            None => None,
        }
    }

    /// Returns the change ticks of `entity`, if the set holds the entity.
    pub fn get_ticks(&self, entity: Entity) -> (ticks: Option<ChangeTicks>)
        requires
            self.wf(),
        ensures
            ticks == match self@.index_of(entity) {
                Some(i) => Some(self@.ticks[i as int]),
                None => None::<ChangeTicks>,
            },
    {
        match self.get_index(entity) {
            Some(i) => Some(self.ticks[i]),
            None => None,
        }
    }

    /// Hands out the component of `entity` for mutation and stamps the slot's
    /// `changed` tick with `tick`, whether or not the caller then writes. A
    /// set that does not hold the entity is left alone.
    pub fn get_mut(&mut self, entity: Entity, tick: Ticks) -> (component: Option<&mut T>)
        requires
            old(self).wf(),
        ensures
            match component {
                Some(c) => {
                    &&& old(self)@.component(entity) == Some(*c)
                    &&& final(self)@ == old(self)@.mutate(entity, *final(c), tick)
                },
                None => {
                    &&& old(self)@.component(entity) is None
                    &&& final(self)@ == old(self)@
                },
            },
            final(self).wf(),
    {
        match self.get_index(entity) {
            Some(i) => {
                let stamps: ChangeTicks = self.ticks[i];
                self.ticks[i] = ChangeTicks { added: stamps.added, changed: tick };
                Some(&mut self.data[i])
            },
            None => None,
        }
    }

    /// Inserts `value` for `entity` at `tick` and returns the component it
    /// replaces, if any. See [`SparseSetView::insert`] for the three cases.
    pub fn insert(&mut self, entity: Entity, value: T, tick: Ticks) -> (previous: Option<T>)
        requires
            old(self).wf(),
        ensures
            final(self).wf(),
            final(self)@ == old(self)@.insert(entity, value, tick),
            previous == old(self)@.component(entity),
    {
        proof {
            self@.lemma_insert_wf(entity, value, tick);
            self@.lemma_index_of(entity, 0);
        }
        match self.sparse.get_slot(entity.index) {
            Some(slot) => {
                if slot.version == entity.version {
                    let i: usize = slot.dense;
                    self.data.push(value);
                    let previous: T = self.data.swap_remove(i);
                    let stamps: ChangeTicks = self.ticks[i];
                    self.ticks[i] = ChangeTicks { added: stamps.added, changed: tick };
                    assert(self.data@ =~= old(self).data@.update(i as int, value));
                    Some(previous)
                } else {
                    None
                }
            },
            None => {
                let i: usize = self.entities.len();
                if i == usize::MAX {
                    return None;
                }
                self.sparse.insert(entity.index, i, entity.version);
                self.entities.push(entity);
                self.data.push(value);
                self.ticks.push(ChangeTicks::just_added(tick));
                None
            },
        }
    }

    /// Removes `entity` and returns its component, if the set holds the
    /// entity. The last dense slot moves into the freed position.
    pub fn remove(&mut self, entity: Entity) -> (component: Option<T>)
        requires
            old(self).wf(),
        ensures
            final(self).wf(),
            final(self)@ == old(self)@.remove(entity),
            component == old(self)@.component(entity),
            !final(self)@.contains(entity),
    {
        proof {
            self@.lemma_remove_wf(entity);
            self@.lemma_index_of(entity, 0);
        }
        match self.get_index(entity) {
            Some(i) => {
                let last: usize = self.entities.len() - 1;
                let moved: Entity = self.entities[last];
                self.sparse.insert(moved.index, i, moved.version);
                self.sparse.remove(entity.index);
                self.entities.swap_remove(i);
                self.ticks.swap_remove(i);
                Some(self.data.swap_remove(i))
            },
            None => None,
        }
    }

    /// Removes `entity` and drops its component. Returns `true` if the set
    /// held the entity.
    pub fn delete(&mut self, entity: Entity) -> (removed: bool)
        requires
            old(self).wf(),
        ensures
            final(self).wf(),
            final(self)@ == old(self)@.remove(entity),
            removed == old(self)@.contains(entity),
            !final(self)@.contains(entity),
    {
        self.remove(entity).is_some()
    }

    /// Swaps the dense slots `a` and `b`: entities, components and ticks
    /// trade places and both sparse slots follow.
    pub fn swap(&mut self, a: usize, b: usize)
        requires
            old(self).wf(),
            a < old(self)@.len(),
            b < old(self)@.len(),
        ensures
            final(self).wf(),
            final(self)@ == old(self)@.swap(a as int, b as int),
    {
        proof {
            self@.lemma_swap_wf(a as int, b as int);
        }
        let first: Entity = self.entities[a];
        let second: Entity = self.entities[b];
        self.sparse.insert(first.index, b, first.version);
        self.sparse.insert(second.index, a, second.version);
        swap_elements(&mut self.entities, a, b);
        swap_elements(&mut self.data, a, b);
        swap_elements(&mut self.ticks, a, b);
    }

    /// Removes every entity.
    pub fn clear(&mut self)
        ensures
            final(self).wf(),
            final(self)@ == SparseSetView::<T>::empty(),
    {
        self.sparse.clear();
        self.entities.clear();
        self.data.clear();
        self.ticks.clear();
    }

    /// Returns the entities in dense order.
    pub fn entities(&self) -> (entities: &[Entity])
        ensures
            entities@ == self@.entities,
    {
        self.entities.as_slice()
    }

    /// Returns the components in dense order.
    pub fn data(&self) -> (data: &[T])
        ensures
            data@ == self@.data,
    {
        self.data.as_slice()
    }

    /// Returns the change ticks in dense order.
    pub fn ticks(&self) -> (ticks: &[ChangeTicks])
        ensures
            ticks@ == self@.ticks,
    {
        self.ticks.as_slice()
    }

    /// Returns the sparse vec of the set.
    pub fn sparse(&self) -> (sparse: &SparseVec)
        ensures
            sparse@ == self@.sparse,
    {
        &self.sparse
    }

    /// Splits the set into its entities, its sparse vec, its components and
    /// its change ticks.
    pub fn split(&self) -> (parts: (&[Entity], &SparseVec, &[T], &[ChangeTicks]))
        ensures
            parts.0@ == self@.entities,
            parts.1@ == self@.sparse,
            parts.2@ == self@.data,
            parts.3@ == self@.ticks,
    {
        (self.entities.as_slice(), &self.sparse, self.data.as_slice(), self.ticks.as_slice())
    }
}

} // verus!
