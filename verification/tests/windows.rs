use sparse_ecs::component_storage::ComponentStorage;
use sparse_ecs::entity::{Entity, Version};
use sparse_ecs::iter::{ComponentQuery, QueryIter};
use sparse_ecs::layout::{ComponentId, GroupFamily, GroupLayout};
use sparse_ecs::ticks::Passthrough;
use sparse_ecs::view::SliceComponent;
use sparse_ecs::world::{World, WorldId};

const A: ComponentId = ComponentId(10);
const B: ComponentId = ComponentId(20);
const C: ComponentId = ComponentId(30);
const D: ComponentId = ComponentId(40);

fn entity(index: u32) -> Entity {
    Entity::new(index, Version::first())
}

fn produced(query: &ComponentQuery<i32>) -> (bool, Vec<Entity>) {
    let mut entities = Vec::new();
    match query.iter::<Passthrough>() {
        QueryIter::Dense(mut dense) => {
            while let Some((e, _)) = dense.next_with_entity() {
                entities.push(e);
            }
            (true, entities)
        }
        QueryIter::Sparse(mut sparse) => {
            while let Some((e, _)) = sparse.next_with_entity() {
                entities.push(e);
            }
            (false, entities)
        }
    }
}

fn asked(storage: &ComponentStorage<i32>, all: &[ComponentId], none: &[ComponentId]) -> Vec<Entity> {
    let mut entities: Vec<Entity> = (0..16)
        .map(entity)
        .filter(|e| {
            all.iter().all(|id| storage.borrow(*id, 1, 0).contains(*e))
                && none.iter().all(|id| !storage.borrow(*id, 1, 0).contains(*e))
        })
        .collect();
    entities.sort();
    entities
}

fn filled() -> ComponentStorage<i32> {
    let first = GroupFamily::new(vec![A, B, C], vec![1, 2, 3]).unwrap();
    let layout = GroupLayout::new(vec![first]).unwrap();
    let mut storage: ComponentStorage<i32> = ComponentStorage::new(&layout);
    storage.register(D);
    let ids = [A, B, C, D];
    let mut seed: u32 = 77;
    for step in 0..200u32 {
        seed = seed.wrapping_mul(1664525).wrapping_add(1013904223);
        let e = entity((seed >> 8) % 16);
        let id = ids[(seed as usize >> 14) % ids.len()];
        if (seed >> 4) % 3 == 0 {
            storage.delete(e, &vec![id]);
        } else {
            storage.insert(e, vec![(id, step as i32)], step);
        }
    }
    storage
}

#[test]
fn every_window_holds_the_entities_asked_for() {
    let storage = filled();
    let cases: Vec<(Vec<ComponentId>, Vec<ComponentId>, Vec<ComponentId>)> = vec![
        (vec![A], vec![], vec![]),
        (vec![A, B], vec![], vec![]),
        (vec![B, A], vec![], vec![]),
        (vec![A], vec![B], vec![]),
        (vec![A, B, C], vec![], vec![]),
        (vec![C], vec![A, B], vec![]),
        (vec![A], vec![], vec![B]),
        (vec![A, B], vec![], vec![C]),
        (vec![B], vec![A], vec![C]),
    ];
    for (base, included, excluded) in cases {
        let query = storage.query(&base, &included, &excluded, 1, 0);
        let (dense, mut entities) = produced(&query);
        assert!(dense);
        entities.sort();
        let mut all = base.clone();
        all.extend(included.iter().copied());
        assert_eq!(entities, asked(&storage, &all, &excluded));
    }
}

#[test]
fn queries_outside_groups_produce_the_entities_asked_for() {
    let storage = filled();
    let cases: Vec<(Vec<ComponentId>, Vec<ComponentId>, Vec<ComponentId>)> = vec![
        (vec![B], vec![], vec![]),
        (vec![A, C], vec![], vec![]),
        (vec![A, D], vec![], vec![]),
        (vec![D], vec![A], vec![B]),
        (vec![B], vec![], vec![A]),
        (vec![A], vec![], vec![C]),
        (vec![A, B], vec![], vec![D]),
    ];
    for (base, included, excluded) in cases {
        let query = storage.query(&base, &included, &excluded, 1, 0);
        let (dense, mut entities) = produced(&query);
        assert!(!dense);
        entities.sort();
        let mut all = base.clone();
        all.extend(included.iter().copied());
        assert_eq!(entities, asked(&storage, &all, &excluded));
    }
}

#[test]
fn a_window_with_two_excluded_views_holds_what_lacks_one_of_them() {
    let family = GroupFamily::new(vec![A, B, C], vec![1, 3]).unwrap();
    let layout = GroupLayout::new(vec![family]).unwrap();
    let mut storage: ComponentStorage<i32> = ComponentStorage::new(&layout);
    let only_a = entity(0);
    let a_and_b = entity(1);
    let all_three = entity(2);
    storage.insert(only_a, vec![(A, 1)], 1);
    storage.insert(a_and_b, vec![(A, 2), (B, 2)], 1);
    storage.insert(all_three, vec![(A, 3), (B, 3), (C, 3)], 1);
    let query = storage.query(&vec![A], &vec![], &vec![B, C], 1, 0);
    assert_eq!(query.group_range(), Some(1..3));
    let (dense, mut entities) = produced(&query);
    assert!(dense);
    entities.sort();
    assert_eq!(entities, vec![only_a, a_and_b]);
    assert!(query.matches::<Passthrough>(only_a));
    assert!(!query.matches::<Passthrough>(a_and_b));
}

#[test]
fn slices_of_a_grouped_query() {
    let family = GroupFamily::new(vec![A, B, C], vec![2, 3]).unwrap();
    let layout = GroupLayout::new(vec![family]).unwrap();
    let mut storage: ComponentStorage<i32> = ComponentStorage::new(&layout);
    let e1 = entity(1);
    let e2 = entity(2);
    let e3 = entity(3);
    storage.insert(e1, vec![(A, 11), (B, 12)], 1);
    storage.insert(e2, vec![(A, 21), (B, 22), (C, 23)], 1);
    storage.insert(e3, vec![(A, 31)], 1);
    let ab = storage.query(&vec![A, B], &vec![], &vec![], 1, 0);
    let (entities, components) = ab.slice(0..2).unwrap();
    assert_eq!(entities.to_vec(), vec![e2, e1]);
    assert_eq!(components.len(), 2);
    assert_eq!(components[0].to_vec(), vec![21, 11]);
    assert_eq!(components[1].to_vec(), vec![22, 12]);
    let (entities, components) = ab.slice(1..2).unwrap();
    assert_eq!(entities.to_vec(), vec![e1]);
    assert_eq!(components[1].to_vec(), vec![12]);
    assert_eq!(ab.slice(1..1).unwrap().0.len(), 0);
    assert!(ab.slice(0..3).is_none());
    assert!(ab.slice(2..1).is_none());
    let not_c = storage.query(&vec![A, B], &vec![], &vec![C], 1, 0);
    assert!(not_c.slice(0..1).is_none());
    assert_eq!(not_c.slice(1..2).unwrap().0.to_vec(), vec![e1]);
    let a = storage.query(&vec![A], &vec![], &vec![], 1, 0);
    assert!(a.slice(0..1).is_none());
    let nothing = storage.query(&vec![], &vec![A], &vec![], 1, 0);
    assert!(nothing.slice(0..0).is_none());
    let view = storage.borrow(A, 1, 0);
    assert_eq!(view.entities().to_vec(), vec![e2, e1, e3]);
    assert_eq!(view.components().to_vec(), vec![21, 11, 31]);
}

#[test]
fn views_are_borrowed_in_the_order_asked() {
    let storage = filled();
    let views = storage.views(&vec![C, A, D], 9, 4);
    assert_eq!(views.len(), 3);
    assert_eq!(views[0].len(), storage.borrow(C, 1, 0).len());
    assert_eq!(views[1].len(), storage.borrow(A, 1, 0).len());
    assert_eq!(views[2].len(), storage.borrow(D, 1, 0).len());
    assert_eq!(views[2].change_detection_ticks(), (9, 4));
    assert!(views[2].group_info().is_none());
    assert_eq!(views[0].group_info().unwrap().group_offset, 2);
}

#[test]
fn insert_then_remove_restores_the_content_of_every_set() {
    let mut storage = filled();
    let e = entity(15);
    storage.delete_all(e);
    storage.insert(e, vec![(A, 1), (C, 3)], 5);
    let snapshot = |storage: &ComponentStorage<i32>| -> Vec<Vec<(Entity, i32, u32, u32)>> {
        [A, B, C, D]
            .iter()
            .map(|id| {
                let view = storage.borrow(*id, 1, 0);
                let mut rows: Vec<(Entity, i32, u32, u32)> = view
                    .set
                    .entities()
                    .iter()
                    .map(|e| {
                        let ticks = view.get_ticks(*e).unwrap();
                        (*e, *view.get(*e).unwrap(), ticks.added, ticks.changed)
                    })
                    .collect();
                rows.sort();
                rows
            })
            .collect()
    };
    let before = snapshot(&storage);
    let groups: Vec<usize> = storage.groups().iter().map(|g| g.len).collect();
    storage.insert(e, vec![(B, 42)], 9);
    assert_eq!(storage.groups()[2].len, groups[2] + 1);
    assert_eq!(storage.remove(e, &vec![B]), vec![Some(42)]);
    assert_eq!(snapshot(&storage), before);
    assert_eq!(storage.groups().iter().map(|g| g.len).collect::<Vec<usize>>(), groups);
}

#[test]
fn world_queries_use_the_world_tick() {
    let family = GroupFamily::new(vec![A, B], vec![2]).unwrap();
    let layout = GroupLayout::new(vec![family]).unwrap();
    let mut world: World<i32> = World::with_layout(WorldId::new(1).unwrap(), &layout);
    let e1 = world.create(vec![(A, 1), (B, 2)]).unwrap();
    world.create(vec![(A, 3)]).unwrap();
    world.advance_ticks().unwrap();
    let query = world.query(&vec![A, B], &vec![], &vec![], 0);
    assert_eq!(query.base[0].change_detection_ticks(), (2, 0));
    assert_eq!(produced(&query), (true, vec![e1]));
    let query = world.query(&vec![A], &vec![], &vec![B], 0);
    assert_eq!(produced(&query).1.len(), 1);
}
