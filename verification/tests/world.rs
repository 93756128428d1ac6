use sparse_ecs::entity::{Entity, Version};
use sparse_ecs::entity_storage::{EntityAllocator, EntityStorage};
use sparse_ecs::iter::{ComponentQuery, QueryIter};
use sparse_ecs::layout::{ComponentId, GroupFamily, GroupLayout};
use sparse_ecs::ticks::{Changed, TickOverflow};
use sparse_ecs::view::Comp;
use sparse_ecs::world::{BorrowFromWorld, NoSuchEntity, World, WorldId};

const A: ComponentId = ComponentId(10);
const B: ComponentId = ComponentId(20);
const C: ComponentId = ComponentId(30);
const POS: ComponentId = ComponentId(1);

fn entity(index: u32, version: u32) -> Entity {
    Entity::new(index, Version::new(version).unwrap())
}

fn grouped_world() -> World<i32> {
    let family = GroupFamily::new(vec![A, B, C], vec![2, 3]).unwrap();
    let layout = GroupLayout::new(vec![family]).unwrap();
    World::with_layout(WorldId::new(1).unwrap(), &layout)
}

#[test]
fn world_id_zero_is_refused() {
    assert!(WorldId::new(0).is_none());
    assert_eq!(WorldId::new(3).unwrap().get(), 3);
}

#[test]
fn allocator_hands_out_fresh_then_recycled_identifiers() {
    let mut allocator = EntityAllocator::new();
    assert_eq!(allocator.allocate(), Some(entity(0, 1)));
    assert_eq!(allocator.allocate(), Some(entity(1, 1)));
    allocator.recycle(entity(0, 1));
    assert_eq!(allocator.allocate(), Some(entity(0, 2)));
    assert_eq!(allocator.allocate(), Some(entity(2, 1)));
    allocator.recycle(Entity::new(1, Version::last()));
    assert_eq!(allocator.allocate(), Some(entity(3, 1)));
    allocator.clear();
    assert_eq!(allocator.allocate(), Some(entity(0, 1)));
}

#[test]
fn entity_storage_create_destroy_recycle() {
    let mut entities = EntityStorage::new();
    let e0 = entities.create().unwrap();
    let e1 = entities.create().unwrap();
    assert_eq!(e0, entity(0, 1));
    assert_eq!(e1, entity(1, 1));
    assert_eq!(entities.as_slice().to_vec(), vec![e0, e1]);
    assert!(entities.contains(e0));
    assert!(entities.destroy(e0));
    assert!(!entities.destroy(e0));
    assert!(!entities.contains(e0));
    assert_eq!(entities.len(), 1);
    let again = entities.create().unwrap();
    assert_eq!(again, entity(0, 2));
    assert!(!entities.contains(e0));
    assert!(entities.contains(again));
    assert!(!entities.destroy(entity(1, 2)));
    assert!(entities.contains(e1));
    entities.clear();
    assert_eq!(entities.len(), 0);
    assert_eq!(entities.create(), Some(entity(0, 1)));
}

#[test]
fn reserved_entities_come_alive_at_maintain() {
    let mut entities = EntityStorage::new();
    let e0 = entities.create().unwrap();
    let r1 = entities.reserve().unwrap();
    let r2 = entities.reserve().unwrap();
    assert_eq!((r1, r2), (entity(1, 1), entity(2, 1)));
    assert!(!entities.contains(r1));
    assert_eq!(entities.len(), 1);
    entities.maintain();
    assert!(entities.contains(r1));
    assert!(entities.contains(r2));
    assert_eq!(entities.as_slice().to_vec(), vec![e0, r2, r1]);
    entities.maintain();
    assert_eq!(entities.len(), 3);
}

#[test]
fn new_world_is_empty_at_tick_one() {
    let world: World<i32> = World::new(WorldId::new(7).unwrap());
    assert_eq!(world.id().get(), 7);
    assert_eq!(world.tick(), 1);
    assert!(world.entities().is_empty());
    assert_eq!(world.component_storages().storage_count(), 0);
    assert_eq!(world.entity_storage().len(), 0);
}

#[test]
fn set_layout_only_before_registration() {
    let family = GroupFamily::new(vec![A, B], vec![2]).unwrap();
    let layout = GroupLayout::new(vec![family]).unwrap();
    let mut world: World<i32> = World::new(WorldId::new(1).unwrap());
    assert!(world.set_layout(&layout));
    assert_eq!(world.component_storages().groups().len(), 1);
    assert!(world.is_registered(A));
    assert!(!world.set_layout(&GroupLayout::empty()));
    assert_eq!(world.component_storages().groups().len(), 1);
    let mut other: World<i32> = World::new(WorldId::new(2).unwrap());
    assert!(other.register(C));
    assert!(!other.register(C));
    assert!(!other.set_layout(&layout));
    assert_eq!(other.component_storages().groups().len(), 0);
}

#[test]
fn create_append_remove_destroy() {
    let mut world = grouped_world();
    let e1 = world.create(vec![(A, 1), (B, 2)]).unwrap();
    let e2 = world.create(vec![(A, 3)]).unwrap();
    assert_eq!(world.entities().to_vec(), vec![e1, e2]);
    assert!(world.contains(e1));
    assert_eq!(world.component_storages().groups()[0].len, 1);
    assert_eq!(world.append(e2, vec![(B, 4), (C, 5)]), Ok(()));
    assert_eq!(world.component_storages().groups()[0].len, 2);
    assert_eq!(world.component_storages().groups()[1].len, 1);
    assert_eq!(world.fetch(C).get(e2), Some(&5));
    assert_eq!(world.append(entity(9, 1), vec![(A, 1)]), Err(NoSuchEntity));
    assert_eq!(world.append(entity(0, 2), vec![(A, 1)]), Err(NoSuchEntity));
    assert_eq!(world.remove(e2, &vec![C, A]), Some(vec![Some(5), Some(3)]));
    assert_eq!(world.remove(e2, &vec![C]), Some(vec![None]));
    assert_eq!(world.remove(entity(9, 1), &vec![C]), None);
    assert_eq!(world.component_storages().groups()[0].len, 1);
    world.delete(e1, &vec![B]);
    world.delete(entity(9, 1), &vec![B]);
    assert_eq!(world.component_storages().groups()[0].len, 0);
    assert!(world.fetch(A).contains(e1));
    assert!(world.destroy(e1));
    assert!(!world.destroy(e1));
    assert!(!world.contains(e1));
    assert!(!world.fetch(A).contains(e1));
    let e3 = world.create(vec![]).unwrap();
    assert_eq!(e3, entity(0, 2));
    assert!(!world.contains(e1));
}

#[test]
fn destroy_in_the_grouped_state() {
    let mut world = grouped_world();
    let e1 = world.create(vec![(A, 11), (B, 12)]).unwrap();
    let e2 = world.create(vec![(A, 21), (B, 22), (C, 23)]).unwrap();
    let e3 = world.create(vec![(A, 31)]).unwrap();
    assert_eq!(world.component_storages().groups()[0].len, 2);
    assert_eq!(world.component_storages().groups()[1].len, 1);
    assert!(world.destroy(e2));
    assert_eq!(world.component_storages().groups()[0].len, 1);
    assert_eq!(world.component_storages().groups()[1].len, 0);
    for id in [A, B, C] {
        assert!(!world.fetch(id).contains(e2));
    }
    assert_eq!(world.fetch(A).set.entities().to_vec(), vec![e1, e3]);
    assert_eq!(world.fetch(B).set.entities().to_vec(), vec![e1]);
    assert_eq!(world.entities().to_vec(), vec![e1, e3]);
}

#[test]
fn extend_creates_one_entity_per_batch() {
    let mut world = grouped_world();
    let created = world.extend(vec![vec![(A, 1)], vec![(A, 2), (B, 2)], vec![]]);
    assert_eq!(created, vec![entity(0, 1), entity(1, 1), entity(2, 1)]);
    assert_eq!(world.entities().to_vec(), created);
    assert_eq!(world.fetch(A).len(), 2);
    assert_eq!(world.fetch(B).get(created[1]), Some(&2));
    assert_eq!(world.component_storages().groups()[0].len, 1);
    assert_eq!(world.fetch(A).get_ticks(created[0]).unwrap().added, 1);
    let more = world.extend_with_ticks(vec![vec![(C, 9)]], 40);
    assert_eq!(world.fetch(C).get_ticks(more[0]).unwrap().added, 40);
}

#[test]
fn create_with_ticks_and_append_with_ticks_use_the_given_tick() {
    let mut world = grouped_world();
    let e = world.create_with_ticks(vec![(A, 1)], 17).unwrap();
    assert_eq!(world.fetch(A).get_ticks(e).unwrap().added, 17);
    assert_eq!(world.append_with_ticks(e, vec![(A, 2), (B, 3)], 23), Ok(()));
    let a = world.fetch(A).get_ticks(e).unwrap();
    assert_eq!((a.added, a.changed), (17, 23));
    let b = world.fetch(B).get_ticks(e).unwrap();
    assert_eq!((b.added, b.changed), (23, 0));
}

#[test]
fn clear_keeps_types_and_groups() {
    let mut world = grouped_world();
    world.create(vec![(A, 1), (B, 2)]).unwrap();
    world.clear();
    assert!(world.entities().is_empty());
    assert!(world.is_registered(A));
    assert_eq!(world.fetch(A).len(), 0);
    assert_eq!(world.component_storages().groups()[0].len, 0);
    assert_eq!(world.create(vec![(A, 1)]), Some(entity(0, 1)));
}

#[test]
fn maintain_brings_reserved_entities_alive() {
    let mut world: World<i32> = World::new(WorldId::new(1).unwrap());
    world.maintain();
    assert!(world.entities().is_empty());
}

#[test]
fn advance_ticks_counts_up() {
    let mut world: World<i32> = World::new(WorldId::new(1).unwrap());
    assert_eq!(world.advance_ticks(), Ok(()));
    assert_eq!(world.tick(), 2);
    assert_eq!(world.advance_ticks(), Ok(()));
    assert_eq!(world.tick(), 3);
    let never: Result<(), TickOverflow> = Ok(());
    assert_eq!(world.advance_ticks(), never);
}

#[test]
fn change_detection_through_the_world() {
    let mut world: World<i32> = World::new(WorldId::new(1).unwrap());
    world.register(POS);
    for _ in 0..4 {
        world.advance_ticks().unwrap();
    }
    assert_eq!(world.tick(), 5);
    let e1 = world.create(vec![(POS, 1)]).unwrap();
    world.advance_ticks().unwrap();
    assert_eq!(world.tick(), 6);
    *world.get_mut(e1, POS).unwrap() = 2;
    assert!(world.get_mut(entity(5, 1), POS).is_none());
    let stamps = world.fetch(POS).get_ticks(e1).unwrap();
    assert_eq!((stamps.added, stamps.changed), (5, 6));
    assert_eq!(world.fetch(POS).change_detection_ticks(), (6, 5));

    let query = ComponentQuery::new(vec![world.borrow(POS, 5)]);
    let mut produced = Vec::new();
    if let QueryIter::Sparse(mut sparse) = query.iter::<Changed>() {
        while let Some((e, components)) = sparse.next_with_entity() {
            produced.push((e, *components[0]));
        }
    }
    assert_eq!(produced, vec![(e1, 2)]);

    let query = ComponentQuery::new(vec![world.borrow(POS, 7)]);
    let mut produced = Vec::new();
    if let QueryIter::Sparse(mut sparse) = query.iter::<Changed>() {
        while let Some((e, components)) = sparse.next_with_entity() {
            produced.push((e, *components[0]));
        }
    }
    assert_eq!(produced, vec![]);
}

#[test]
fn exclusive_view_writes_and_stamps() {
    let mut world = grouped_world();
    let e1 = world.create(vec![(A, 1), (B, 2)]).unwrap();
    let e2 = world.create(vec![(A, 3)]).unwrap();
    world.advance_ticks().unwrap();
    world.advance_ticks().unwrap();
    {
        let mut view = world.fetch_mut(A);
        assert_eq!(view.len(), 2);
        assert!(view.contains(e2));
        assert_eq!(view.get(e1), Some(&1));
        assert_eq!(view.world_tick, 3);
        assert_eq!(view.change_tick, 2);
        assert!(view.group_info.is_some());
        *view.get_mut(e2).unwrap() = 30;
        assert!(view.get_mut(entity(9, 1)).is_none());
        assert_eq!(view.get(e2), Some(&30));
    }
    assert_eq!(world.fetch(A).get(e2), Some(&30));
    let stamps = world.fetch(A).get_ticks(e2).unwrap();
    assert_eq!((stamps.added, stamps.changed), (1, 3));
    let untouched = world.fetch(A).get_ticks(e1).unwrap();
    assert_eq!((untouched.added, untouched.changed), (1, 0));
    assert_eq!(world.fetch(A).set.entities().to_vec(), vec![e1, e2]);
    assert_eq!(world.component_storages().groups()[0].len, 1);
}

#[test]
fn views_are_borrowed_from_the_world() {
    let mut world = grouped_world();
    let e = world.create(vec![(A, 7)]).unwrap();
    world.advance_ticks().unwrap();
    let view: Comp<i32> = BorrowFromWorld::borrow(&world, A);
    assert_eq!(view.get(e), Some(&7));
    assert_eq!(view.change_detection_ticks(), (2, 1));
}
