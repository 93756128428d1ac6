//! Entity storage: which entities are alive, and which index and version
//! the next entity gets.

use vstd::prelude::*;
use crate::entity::{Entity, Version};
use crate::sparse_set::{ComponentSparseSet, SparseSetView};

verus! {

/// Hands out entity identifiers: an index that was never used, or the index
/// of a destroyed entity with the next version.
#[derive(Debug)]
pub struct EntityAllocator {
    next_index: u64,
    recycled: Vec<Entity>,
}

impl EntityAllocator {
    /// The first index that was never handed out.
    pub closed spec fn next_index(&self) -> nat {
        self.next_index as nat
    }

    /// The identifiers waiting to be handed out again, the last one first.
    pub closed spec fn recycled(&self) -> Seq<Entity> {
        self.recycled@
    }

    /// The allocator's invariant: recycled identifiers have indexes that
    /// were handed out before, each at most once.
    pub open spec fn wf(&self) -> bool {
        &&& self.next_index() <= 0x1_0000_0000
        &&& forall|i: int|
            0 <= i < self.recycled().len() ==> (#[trigger] self.recycled()[i]).index
                < self.next_index()
        &&& forall|i: int, j: int|
            0 <= i < j < self.recycled().len() ==> (#[trigger] self.recycled()[i]).index != (
            #[trigger] self.recycled()[j]).index
    }

    /// The identifier that `allocate` hands out next, if any is left.
    pub open spec fn upcoming(&self) -> Option<Entity> {
        if self.recycled().len() > 0 {
            Some(self.recycled().last())
        } else if self.next_index() <= u32::MAX {
            Some(Entity { index: self.next_index() as u32, version: Version::spec_first() })
        } else {
            None
        }
    }

    /// Creates an allocator that has handed out nothing.
    pub fn new() -> (allocator: Self)
        ensures
            allocator.wf(),
            allocator.next_index() == 0,
            allocator.recycled().len() == 0,
    {
        EntityAllocator { next_index: 0, recycled: Vec::new() }
    }

    /// Hands out an identifier: the one recycled last, or else one with the
    /// first unused index and the first version. Returns `None` once every
    /// index is in use.
    pub fn allocate(&mut self) -> (entity: Option<Entity>)
        requires
            old(self).wf(),
        ensures
            final(self).wf(),
            entity == old(self).upcoming(),
            old(self).recycled().len() > 0 ==> final(self).recycled() == old(
                self,
            ).recycled().drop_last() && final(self).next_index() == old(self).next_index(),
            old(self).recycled().len() == 0 && entity is Some ==> final(self).next_index()
                == old(self).next_index() + 1 && final(self).recycled() == old(self).recycled(),
            entity is None ==> final(self).next_index() == old(self).next_index()
                && final(self).recycled() == old(self).recycled(),
    {
        match self.recycled.pop() {
            Some(entity) => Some(entity),
            None => {
                if self.next_index <= 0xffff_ffff {
                    let index: u32 = self.next_index as u32;
                    self.next_index = self.next_index + 1;
                    Some(Entity::with_index(index))
                } else {
                    None
                }
            },
        }
    }

    /// Takes back the index of a destroyed entity, to hand it out again with
    /// the next version. An index whose versions are used up is retired.
    pub fn recycle(&mut self, entity: Entity)
        requires
            old(self).wf(),
            entity.index < old(self).next_index(),
            forall|i: int|
                0 <= i < old(self).recycled().len() ==> (#[trigger] old(self).recycled()[i]).index
                    != entity.index,
        ensures
            final(self).wf(),
            final(self).next_index() == old(self).next_index(),
            entity.version@ < u32::MAX ==> final(self).recycled().len() == old(
                self,
            ).recycled().len() + 1 && final(self).recycled().drop_last() == old(self).recycled()
                && final(self).recycled().last().index == entity.index
                && final(self).recycled().last().version@ == entity.version@ + 1,
            !(entity.version@ < u32::MAX) ==> final(self).recycled() == old(self).recycled(),
    {
        match entity.version.next() {
            Some(version) => {
                self.recycled.push(Entity::new(entity.index, version));
                assert(self.recycled@.drop_last() =~= old(self).recycled@);
                proof {
                    let before = old(self).recycled();
                    let after = self.recycled();
                    assert forall|i: int| 0 <= i < after.len() implies (#[trigger] after[i]).index
                        < self.next_index() by {
                        if i < before.len() {
                            assert(before[i].index < self.next_index());
                        }
                    }
                    assert forall|i: int, j: int| 0 <= i < j < after.len() implies (
                    #[trigger] after[i]).index != (#[trigger] after[j]).index by {
                        if j < before.len() {
                            assert(before[i].index != before[j].index);
                        } else {
                            assert(before[i].index != entity.index);
                        }
                    }
                }
            },
            None => {},
        }
    }

    /// Forgets everything: the next identifier has index 0 again.
    pub fn clear(&mut self)
        ensures
            final(self).wf(),
            final(self).next_index() == 0,
            final(self).recycled().len() == 0,
    {
        self.next_index = 0;
        self.recycled.clear();
    }
}

/// Keeps track of the entities that are alive.
#[derive(Debug)]
pub struct EntityStorage {
    set: ComponentSparseSet<()>,
    allocator: EntityAllocator,
    pending: Vec<Entity>,
}

impl EntityStorage {
    /// The entities alive, in dense order.
    pub closed spec fn view(&self) -> Seq<Entity> {
        self.set@.entities
    }

    /// Whether `entity` is alive.
    pub closed spec fn holds(&self, entity: Entity) -> bool {
        self.set@.contains(entity)
    }

    /// The identifiers reserved and not yet alive, the last one first.
    pub closed spec fn reserved(&self) -> Seq<Entity> {
        self.pending@
    }

    /// The allocator.
    pub closed spec fn allocator(&self) -> EntityAllocator {
        self.allocator
    }

    /// The invariant of the storage: no index is alive twice, and the
    /// indexes of identifiers that wait to be handed out or to come alive
    /// are different from one another and from those alive.
    pub closed spec fn wf(&self) -> bool {
        &&& self.set.wf()
        &&& self.allocator.wf()
        &&& forall|index: u32| #[trigger]
            self.set@.occupied(index) ==> index < self.allocator.next_index()
        &&& forall|i: int|
            0 <= i < self.allocator.recycled().len() ==> !self.set@.occupied(
                (#[trigger] self.allocator.recycled()[i]).index,
            )
        &&& forall|i: int|
            0 <= i < self.pending@.len() ==> !self.set@.occupied((#[trigger] self.pending@[i]).index)
                && self.pending@[i].index < self.allocator.next_index()
        &&& forall|i: int, j: int|
            0 <= i < j < self.pending@.len() ==> (#[trigger] self.pending@[i]).index != (
            #[trigger] self.pending@[j]).index
        &&& forall|i: int, j: int|
            0 <= i < self.pending@.len() && 0 <= j < self.allocator.recycled().len() ==> (
            #[trigger] self.pending@[i]).index != (#[trigger] self.allocator.recycled()[j]).index
    }

    /// An entity is alive exactly if it is among the entities alive, and no
    /// entity is alive twice.
    pub proof fn lemma_holds(&self, entity: Entity)
        requires
            self.wf(),
        ensures
            self.holds(entity) <==> self@.contains(entity),
            forall|i: int, j: int|
                0 <= i < j < self@.len() ==> (#[trigger] self@[i]).index != (#[trigger] self@[j]).index,
    {
        self.set@.lemma_index_of(entity, 0);
        if self@.contains(entity) {
            let i = choose|i: int| 0 <= i < self@.len() && self@[i] == entity;
            self.set@.lemma_index_of(entity, i);
        }
        assert forall|i: int, j: int| 0 <= i < j < self@.len() implies (#[trigger] self@[i]).index != (
        #[trigger] self@[j]).index by {
            self.set@.lemma_no_duplicate_index(i, j);
        }
    }

    /// Two entities that are alive at once have different indexes.
    pub proof fn lemma_unique_index(&self, a: Entity, b: Entity)
        requires
            self.holds(a),
            self.holds(b),
            a.index == b.index,
        ensures
            a == b,
    {
    }

    /// Creates a storage with no entity.
    pub fn new() -> (storage: Self)
        ensures
            storage.wf(),
            storage@.len() == 0,
            storage.reserved().len() == 0,
            storage.allocator().next_index() == 0,
            storage.allocator().recycled().len() == 0,
    {
        EntityStorage {
            set: ComponentSparseSet::new(),
            allocator: EntityAllocator::new(),
            pending: Vec::new(),
        }
    }

    /// Whether one more entity can come alive: an identifier is left and the
    /// entities alive can still be counted.
    pub open spec fn can_create(&self) -> bool {
        self.allocator().upcoming() is Some && self@.len() + self.reserved().len() < usize::MAX
    }

    /// Creates an entity: takes the next identifier from the allocator and
    /// makes it alive. Returns `None`, and changes nothing, if no entity can
    /// be created.
    pub fn create(&mut self) -> (entity: Option<Entity>)
        requires
            old(self).wf(),
        ensures
            final(self).wf(),
            final(self).reserved() == old(self).reserved(),
            match entity {
                Some(created) => {
                    &&& old(self).can_create()
                    &&& old(self).allocator().upcoming() == Some(created)
                    &&& !old(self).holds(created)
                    &&& final(self).holds(created)
                    &&& final(self)@ == old(self)@.push(created)
                    &&& forall|other: Entity|
                        other != created ==> final(self).holds(other) == old(self).holds(other)
                },
                None => {
                    &&& !old(self).can_create()
                    &&& final(self)@ == old(self)@
                    &&& final(self).allocator().recycled() == old(self).allocator().recycled()
                    &&& final(self).allocator().next_index() == old(self).allocator().next_index()
                    &&& forall|other: Entity| final(self).holds(other) == old(self).holds(other)
                },
            },
    {
        let alive: usize = self.set.len();
        if alive >= usize::MAX - self.pending.len() {
            return None;
        }
        let ghost before = self.allocator;
        match self.allocator.allocate() {
            Some(created) => {
                proof {
                    if before.recycled().len() > 0 {
                        assert(created == before.recycled()[before.recycled().len() - 1]);
                    }
                    assert(!self.set@.occupied(created.index));
                    self.set@.lemma_insert_index_of(created, (), 0, created);
                    assert forall|other: Entity| other != created implies self.set@.insert(
                        created,
                        (),
                        0,
                    ).contains(other) == self.set@.contains(other) by {
                        self.set@.lemma_insert_index_of(created, (), 0, other);
                    }
                }
                let ghost set_before = self.set@;
                self.set.insert(created, (), 0);
                proof {
                    let recycled = before.recycled();
                    let left = self.allocator.recycled();
                    assert(self.set@.sparse.dom() =~= set_before.sparse.dom().insert(created.index));
                    assert forall|i: int| 0 <= i < left.len() implies !self.set@.occupied(
                        (#[trigger] left[i]).index,
                    ) by {
                        if recycled.len() > 0 {
                            assert(left[i] == recycled[i]);
                            assert(recycled[i].index != recycled[recycled.len() - 1].index);
                        } else {
                            assert(left[i] == recycled[i]);
                        }
                        assert(!set_before.occupied(recycled[i].index));
                    }
                    assert forall|i: int| 0 <= i < self.pending@.len() implies !self.set@.occupied(
                        (#[trigger] self.pending@[i]).index,
                    ) && self.pending@[i].index < self.allocator.next_index() by {
                        assert(!set_before.occupied(self.pending@[i].index));
                        if recycled.len() > 0 {
                            assert(self.pending@[i].index != recycled[recycled.len() - 1].index);
                        }
                    }
                    assert forall|i: int, j: int|
                        0 <= i < self.pending@.len() && 0 <= j < left.len() implies (
                    #[trigger] self.pending@[i]).index != (#[trigger] left[j]).index by {
                        assert(left[j] == recycled[j]);
                    }
                    assert forall|index: u32| #[trigger]
                        self.set@.occupied(index) implies index < self.allocator.next_index() by {
                        if index != created.index {
                            assert(set_before.occupied(index));
                        }
                    }
                }
                Some(created)
            },
            None => None,
        }
    }

    /// Reserves an identifier without making it alive. The entity comes
    /// alive at the next call of `maintain`.
    pub fn reserve(&mut self) -> (entity: Option<Entity>)
        requires
            old(self).wf(),
        ensures
            final(self).wf(),
            final(self)@ == old(self)@,
            match entity {
                Some(reserved) => {
                    &&& old(self).can_create()
                    &&& old(self).allocator().upcoming() == Some(reserved)
                    &&& final(self).reserved() == old(self).reserved().push(reserved)
                },
                None => {
                    &&& !old(self).can_create()
                    &&& final(self).reserved() == old(self).reserved()
                    &&& final(self).allocator().recycled() == old(self).allocator().recycled()
                    &&& final(self).allocator().next_index() == old(self).allocator().next_index()
                },
            },
    {
        let alive: usize = self.set.len();
        if alive >= usize::MAX - self.pending.len() {
            return None;
        }
        let ghost before = self.allocator;
        match self.allocator.allocate() {
            Some(reserved) => {
                proof {
                    if before.recycled().len() > 0 {
                        assert(reserved == before.recycled()[before.recycled().len() - 1]);
                    }
                }
                let ghost waiting = self.pending@;
                self.pending.push(reserved);
                proof {
                    let recycled = before.recycled();
                    let left = self.allocator.recycled();
                    assert forall|i: int| 0 <= i < left.len() implies !self.set@.occupied(
                        (#[trigger] left[i]).index,
                    ) by {
                        assert(left[i] == recycled[i]);
                        assert(!self.set@.occupied(recycled[i].index));
                    }
                    assert forall|i: int| 0 <= i < self.pending@.len() implies !self.set@.occupied(
                        (#[trigger] self.pending@[i]).index,
                    ) && self.pending@[i].index < self.allocator.next_index() by {
                        if i < waiting.len() {
                            assert(!self.set@.occupied(waiting[i].index));
                        } else if recycled.len() > 0 {
                            assert(!self.set@.occupied(recycled[recycled.len() - 1].index));
                            assert(recycled[recycled.len() - 1].index < before.next_index());
                        } else {
                            if self.set@.occupied(reserved.index) {
                                assert(reserved.index < before.next_index());
                            }
                        }
                    }
                    assert forall|i: int, j: int| 0 <= i < j < self.pending@.len() implies (
                    #[trigger] self.pending@[i]).index != (#[trigger] self.pending@[j]).index by {
                        if j < waiting.len() {
                            assert(waiting[i].index != waiting[j].index);
                        } else if recycled.len() > 0 {
                            assert(waiting[i].index != recycled[recycled.len() - 1].index);
                        } else {
                            assert(waiting[i].index < before.next_index());
                        }
                    }
                    assert forall|i: int, j: int|
                        0 <= i < self.pending@.len() && 0 <= j < left.len() implies (
                    #[trigger] self.pending@[i]).index != (#[trigger] left[j]).index by {
                        assert(left[j] == recycled[j]);
                        if i < waiting.len() {
                            assert(waiting[i].index != recycled[j].index);
                        } else if recycled.len() > 0 {
                            assert(recycled[j].index != recycled[recycled.len() - 1].index);
                        } else {
                            assert(recycled[j].index < before.next_index());
                        }
                    }
                    assert forall|index: u32| #[trigger]
                        self.set@.occupied(index) implies index < self.allocator.next_index() by {}
                }
                Some(reserved)
            },
            None => None,
        }
    }

    /// Makes every reserved entity alive, the one reserved last first.
    pub fn maintain(&mut self)
        requires
            old(self).wf(),
            old(self)@.len() + old(self).reserved().len() <= usize::MAX,
        ensures
            final(self).wf(),
            final(self).reserved().len() == 0,
            final(self).allocator().recycled() == old(self).allocator().recycled(),
            final(self).allocator().next_index() == old(self).allocator().next_index(),
            final(self)@ == old(self)@ + old(self).reserved().reverse(),
    {
        let ghost reserved = self.pending@;
        assert(reserved.subrange(reserved.len() as int, reserved.len() as int).reverse()
            =~= Seq::<Entity>::empty());
        assert(self@ + Seq::<Entity>::empty() =~= self@);
        while self.pending.len() > 0
            invariant
                self.wf(),
                self.allocator == old(self).allocator,
                self.pending@ == reserved.subrange(0, self.pending@.len() as int),
                self.pending@.len() <= reserved.len(),
                self@.len() + self.pending@.len() <= usize::MAX,
                self@ == old(self)@ + reserved.subrange(
                    self.pending@.len() as int,
                    reserved.len() as int,
                ).reverse(),
            decreases self.pending.len(),
        {
            let ghost rest = self.pending@.len();
            let ghost alive = self@;
            let entity = self.pending.pop().unwrap();
            proof {
                assert(entity == reserved[rest - 1]);
                assert(!self.set@.occupied(entity.index));
                self.set@.lemma_insert_index_of(entity, (), 0, entity);
            }
            let ghost set_before = self.set@;
            let ghost waiting = reserved.subrange(0, rest as int);
            self.set.insert(entity, (), 0);
            proof {
                let recycled = self.allocator.recycled();
                assert(self.set@.sparse.dom() =~= set_before.sparse.dom().insert(entity.index));
                assert(self.pending@ =~= waiting.drop_last());
                assert forall|i: int| 0 <= i < recycled.len() implies !self.set@.occupied(
                    (#[trigger] recycled[i]).index,
                ) by {
                    assert(!set_before.occupied(recycled[i].index));
                    assert(waiting[rest - 1].index != recycled[i].index);
                }
                assert forall|i: int| 0 <= i < self.pending@.len() implies !self.set@.occupied(
                    (#[trigger] self.pending@[i]).index,
                ) && self.pending@[i].index < self.allocator.next_index() by {
                    assert(self.pending@[i] == waiting[i]);
                    assert(!set_before.occupied(waiting[i].index));
                    assert(waiting[i].index != waiting[rest - 1].index);
                }
                assert forall|i: int, j: int| 0 <= i < j < self.pending@.len() implies (
                #[trigger] self.pending@[i]).index != (#[trigger] self.pending@[j]).index by {
                    assert(waiting[i].index != waiting[j].index);
                }
                assert forall|i: int, j: int|
                    0 <= i < self.pending@.len() && 0 <= j < recycled.len() implies (
                #[trigger] self.pending@[i]).index != (#[trigger] recycled[j]).index by {
                    assert(waiting[i].index != recycled[j].index);
                }
                assert forall|index: u32| #[trigger]
                    self.set@.occupied(index) implies index < self.allocator.next_index() by {
                    if index != entity.index {
                        assert(set_before.occupied(index));
                    } else {
                        assert(waiting[rest - 1].index < self.allocator.next_index());
                    }
                }
                assert(self.pending@ =~= reserved.subrange(0, rest - 1));
                assert(reserved.subrange(rest - 1, reserved.len() as int).reverse()
                    =~= reserved.subrange(rest as int, reserved.len() as int).reverse().push(
                    entity,
                ));
                assert(self@ =~= old(self)@ + reserved.subrange(
                    rest - 1,
                    reserved.len() as int,
                ).reverse());
            }
        }
        assert(reserved.subrange(0, reserved.len() as int) =~= reserved);
    }

    /// Destroys `entity`: it is no longer alive, and its index is handed out
    /// again later with the next version. Returns `false`, and changes
    /// nothing, if the entity is not alive.
    pub fn destroy(&mut self, entity: Entity) -> (destroyed: bool)
        requires
            old(self).wf(),
        ensures
            final(self).wf(),
            destroyed == old(self).holds(entity),
            !final(self).holds(entity),
            final(self).reserved() == old(self).reserved(),
            forall|other: Entity|
                other != entity ==> final(self).holds(other) == old(self).holds(other),
            !destroyed ==> final(self)@ == old(self)@ && final(self).allocator().recycled() == old(
                self,
            ).allocator().recycled(),
            final(self).allocator().next_index() == old(self).allocator().next_index(),
            destroyed ==> final(self)@.len() == old(self)@.len() - 1,
            destroyed && entity.version@ < u32::MAX ==> final(self).allocator().recycled().len()
                == old(self).allocator().recycled().len() + 1
                && final(self).allocator().recycled().last().index == entity.index
                && final(self).allocator().recycled().last().version@ == entity.version@ + 1,
    {
        proof {
            self.set@.lemma_index_of(entity, 0);
            self.set@.lemma_remove_wf(entity);
            self.set@.lemma_remove_index_of(entity, entity);
            assert forall|other: Entity| other != entity implies self.set@.remove(entity).contains(
                other,
            ) == self.set@.contains(other) by {
                self.set@.lemma_remove_index_of(entity, other);
            }
        }
        let ghost before = self.set@;
        if self.set.delete(entity) {
            proof {
                assert(before.occupied(entity.index));
                assert forall|index: u32| #[trigger]
                    self.set@.occupied(index) implies before.occupied(index) by {}
            }
            let ghost recycled = self.allocator.recycled();
            proof {
                assert forall|i: int| 0 <= i < recycled.len() implies (#[trigger] recycled[i]).index
                    != entity.index by {
                    assert(!before.occupied(recycled[i].index));
                }
            }
            self.allocator.recycle(entity);
            proof {
                let left = self.allocator.recycled();
                assert forall|i: int| 0 <= i < left.len() implies !self.set@.occupied(
                    (#[trigger] left[i]).index,
                ) by {
                    if entity.version@ < u32::MAX {
                        if i < recycled.len() {
                            assert(left.drop_last()[i] == recycled[i]);
                            assert(!before.occupied(recycled[i].index));
                        }
                    } else {
                        assert(!before.occupied(recycled[i].index));
                    }
                }
                assert forall|i: int| 0 <= i < self.pending@.len() implies !self.set@.occupied(
                    (#[trigger] self.pending@[i]).index,
                ) && self.pending@[i].index < self.allocator.next_index() by {
                    assert(!before.occupied(self.pending@[i].index));
                }
                assert forall|i: int, j: int|
                    0 <= i < self.pending@.len() && 0 <= j < left.len() implies (
                #[trigger] self.pending@[i]).index != (#[trigger] left[j]).index by {
                    assert(!before.occupied(self.pending@[i].index));
                    if entity.version@ < u32::MAX {
                        if j < recycled.len() {
                            assert(left.drop_last()[j] == recycled[j]);
                        }
                    }
                }
                assert forall|index: u32| #[trigger]
                    self.set@.occupied(index) implies index < self.allocator.next_index() by {
                    assert(before.occupied(index));
                }
            }
            true
        } else {
            false
        }
    }

    /// Returns `true` if `entity` is alive.
    pub fn contains(&self, entity: Entity) -> (alive: bool)
        requires
            self.wf(),
        ensures
            alive == self.holds(entity),
    {
        self.set.contains(entity)
    }

    /// Returns the number of entities alive.
    pub fn len(&self) -> (len: usize)
        requires
            self.wf(),
        ensures
            len == self@.len(),
    {
        self.set.len()
    }

    /// Destroys every entity and forgets every identifier handed out.
    pub fn clear(&mut self)
        ensures
            final(self).wf(),
            final(self)@.len() == 0,
            final(self).reserved().len() == 0,
            final(self).allocator().next_index() == 0,
            final(self).allocator().recycled().len() == 0,
            forall|entity: Entity| !final(self).holds(entity),
    {
        self.set.clear();
        self.allocator.clear();
        self.pending.clear();
    }

    /// Returns the entities alive, in dense order.
    pub fn as_slice(&self) -> (entities: &[Entity])
        ensures
            entities@ == self@,
    {
        self.set.entities()
    }
}

} // verus!
