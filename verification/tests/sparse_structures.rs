use sparse_ecs::entity::{Entity, Version};
use sparse_ecs::sparse_set::ComponentSparseSet;
use sparse_ecs::sparse_vec::SparseVec;
use sparse_ecs::ticks::ChangeTicks;

fn entity(index: u32, version: u32) -> Entity {
    Entity::new(index, Version::new(version).unwrap())
}

fn check_invariants(set: &ComponentSparseSet<i32>) {
    let entities = set.entities();
    assert_eq!(entities.len(), set.data().len());
    assert_eq!(entities.len(), set.ticks().len());
    assert_eq!(entities.len(), set.len());
    for (i, e) in entities.iter().enumerate() {
        assert_eq!(set.sparse().get(e.index, e.version), Some(i));
        assert_eq!(set.get_index(*e), Some(i));
    }
}

#[test]
fn version_zero_is_refused() {
    assert!(Version::new(0).is_none());
    assert_eq!(Version::new(7).unwrap().get(), 7);
}

#[test]
fn version_next_counts_up_and_stops_at_the_last() {
    assert_eq!(Version::first().get(), 1);
    assert_eq!(Version::first().next().unwrap().get(), 2);
    assert_eq!(Version::last().get(), u32::MAX);
    assert!(Version::last().next().is_none());
    assert_eq!(Version::default(), Version::first());
}

#[test]
fn entity_accessors() {
    let e = Entity::with_index(9);
    assert_eq!(e.index, 9);
    assert_eq!(e.version.get(), 1);
    assert_eq!(e.sparse(), 9usize);
    assert_eq!(Entity::new(9, Version::first()), e);
    assert_ne!(entity(9, 2), e);
}

#[test]
fn entities_are_ordered_by_version_then_index() {
    assert!(entity(5, 1).precedes(&entity(0, 2)));
    assert!(!entity(0, 2).precedes(&entity(5, 1)));
    assert!(entity(1, 3).precedes(&entity(2, 3)));
    assert!(!entity(2, 3).precedes(&entity(1, 3)));
    assert!(!entity(2, 3).precedes(&entity(2, 3)));
    let all = [entity(5, 1), entity(0, 2), entity(1, 3), entity(2, 3), entity(0, 1)];
    for a in all {
        for b in all {
            assert_eq!(a < b, a.precedes(&b));
        }
    }
    let mut sorted = all.to_vec();
    sorted.sort();
    assert_eq!(sorted, vec![entity(0, 1), entity(5, 1), entity(0, 2), entity(1, 3), entity(2, 3)]);
}

#[test]
fn sparse_vec_insert_get_remove() {
    let mut sparse = SparseVec::new();
    let v1 = Version::first();
    let v2 = Version::new(2).unwrap();
    assert_eq!(sparse.get(4, v1), None);
    sparse.insert(4, 0, v1);
    sparse.insert(1, 1, v2);
    assert_eq!(sparse.get(4, v1), Some(0));
    assert_eq!(sparse.get(4, v2), None);
    assert_eq!(sparse.get(1, v2), Some(1));
    assert_eq!(sparse.get(1, v1), None);
    assert_eq!(sparse.get(3, v1), None);
    assert_eq!(sparse.get(1000, v1), None);
    assert!(sparse.contains(entity(4, 1)));
    assert!(!sparse.contains(entity(4, 2)));
    assert_eq!(sparse.get_slot(1).unwrap().dense, 1);
    assert_eq!(sparse.remove(4), Some(0));
    assert_eq!(sparse.remove(4), None);
    assert_eq!(sparse.remove(1000), None);
    assert_eq!(sparse.get(4, v1), None);
    assert_eq!(sparse.get(1, v2), Some(1));
    sparse.clear();
    assert_eq!(sparse.get(1, v2), None);
}

#[test]
fn sparse_vec_overwrites_a_slot() {
    let mut sparse = SparseVec::new();
    sparse.insert(2, 5, Version::first());
    sparse.insert(2, 6, Version::new(3).unwrap());
    assert_eq!(sparse.get(2, Version::first()), None);
    assert_eq!(sparse.get(2, Version::new(3).unwrap()), Some(6));
}

#[test]
fn insert_then_remove_gives_the_value_back() {
    let mut set: ComponentSparseSet<i32> = ComponentSparseSet::new();
    set.insert(entity(0, 1), 10, 1);
    set.insert(entity(7, 1), 70, 1);
    let before_entities = set.entities().to_vec();
    let before_data = set.data().to_vec();
    let before_ticks = set.ticks().to_vec();
    let e = entity(3, 1);
    assert_eq!(set.insert(e, 7, 5), None);
    assert_eq!(set.len(), 3);
    assert!(set.contains(e));
    check_invariants(&set);
    assert_eq!(set.remove(e), Some(7));
    assert!(!set.contains(e));
    assert_eq!(set.entities().to_vec(), before_entities);
    assert_eq!(set.data().to_vec(), before_data);
    assert_eq!(set.ticks().to_vec(), before_ticks);
    check_invariants(&set);
}

#[test]
fn stale_version_reads_as_absent_and_is_refused() {
    let mut set: ComponentSparseSet<i32> = ComponentSparseSet::new();
    let live = entity(3, 2);
    let stale = entity(3, 1);
    set.insert(live, 7, 5);
    assert!(!set.contains(stale));
    assert_eq!(set.get(stale), None);
    assert_eq!(set.get_index(stale), None);
    assert_eq!(set.remove(stale), None);
    assert!(!set.delete(stale));
    assert_eq!(set.insert(stale, 9, 6), None);
    assert_eq!(set.len(), 1);
    assert_eq!(set.get(live), Some(&7));
    assert_eq!(set.get_ticks(live), Some(ChangeTicks::new(5, 0)));
    check_invariants(&set);
}

#[test]
fn insert_on_an_existing_slot_keeps_added_and_stamps_changed() {
    let mut set: ComponentSparseSet<i32> = ComponentSparseSet::new();
    let e = entity(1, 1);
    assert_eq!(set.insert(e, 1, 3), None);
    assert_eq!(set.get_ticks(e), Some(ChangeTicks::new(3, 0)));
    assert_eq!(set.insert(e, 2, 8), Some(1));
    assert_eq!(set.get(e), Some(&2));
    assert_eq!(set.get_ticks(e), Some(ChangeTicks::new(3, 8)));
    assert_eq!(set.len(), 1);
    check_invariants(&set);
}

#[test]
fn remove_moves_the_last_slot_into_the_gap() {
    let mut set: ComponentSparseSet<i32> = ComponentSparseSet::new();
    let a = entity(0, 1);
    let b = entity(1, 1);
    let c = entity(2, 1);
    set.insert(a, 10, 1);
    set.insert(b, 20, 2);
    set.insert(c, 30, 3);
    assert_eq!(set.remove(a), Some(10));
    assert_eq!(set.entities().to_vec(), vec![c, b]);
    assert_eq!(set.data().to_vec(), vec![30, 20]);
    assert_eq!(set.ticks().to_vec(), vec![ChangeTicks::new(3, 0), ChangeTicks::new(2, 0)]);
    assert_eq!(set.get_index(c), Some(0));
    assert_eq!(set.get_index(b), Some(1));
    assert_eq!(set.get_index(a), None);
    check_invariants(&set);
    assert!(set.delete(b));
    assert_eq!(set.entities().to_vec(), vec![c]);
    assert!(set.delete(c));
    assert!(set.is_empty());
    check_invariants(&set);
}

#[test]
fn swap_trades_entities_data_and_ticks() {
    let mut set: ComponentSparseSet<i32> = ComponentSparseSet::new();
    let a = entity(5, 1);
    let b = entity(6, 1);
    let c = entity(7, 1);
    set.insert(a, 10, 1);
    set.insert(b, 20, 2);
    set.insert(c, 30, 3);
    set.swap(0, 2);
    assert_eq!(set.entities().to_vec(), vec![c, b, a]);
    assert_eq!(set.data().to_vec(), vec![30, 20, 10]);
    assert_eq!(set.ticks().to_vec(), vec![
        ChangeTicks::new(3, 0),
        ChangeTicks::new(2, 0),
        ChangeTicks::new(1, 0)
    ]);
    assert_eq!(set.get(a), Some(&10));
    assert_eq!(set.get(c), Some(&30));
    check_invariants(&set);
    set.swap(1, 1);
    assert_eq!(set.entities().to_vec(), vec![c, b, a]);
    check_invariants(&set);
}

#[test]
fn get_mut_stamps_changed_and_writes_through() {
    let mut set: ComponentSparseSet<i32> = ComponentSparseSet::new();
    let e = entity(2, 1);
    set.insert(e, 5, 4);
    {
        let value = set.get_mut(e, 9).unwrap();
        *value = 6;
    }
    assert_eq!(set.get(e), Some(&6));
    assert_eq!(set.get_ticks(e), Some(ChangeTicks::new(4, 9)));
    assert!(set.get_mut(entity(2, 2), 10).is_none());
    assert!(set.get_mut(entity(3, 1), 10).is_none());
    assert_eq!(set.get_ticks(e), Some(ChangeTicks::new(4, 9)));
    check_invariants(&set);
}

#[test]
fn clear_and_split() {
    let mut set: ComponentSparseSet<i32> = ComponentSparseSet::new();
    set.insert(entity(2, 1), 5, 4);
    set.insert(entity(0, 1), 6, 4);
    {
        let (entities, sparse, data, ticks) = set.split();
        assert_eq!(entities.to_vec(), vec![entity(2, 1), entity(0, 1)]);
        assert_eq!(data.to_vec(), vec![5, 6]);
        assert_eq!(ticks.len(), 2);
        assert_eq!(sparse.get(0, Version::first()), Some(1));
    }
    set.clear();
    assert!(set.is_empty());
    assert!(!set.contains(entity(2, 1)));
    check_invariants(&set);
}

#[test]
fn invariants_hold_over_a_mixed_sequence() {
    let mut set: ComponentSparseSet<i32> = ComponentSparseSet::new();
    let mut seed: u32 = 12345;
    for step in 0..400u32 {
        seed = seed.wrapping_mul(1664525).wrapping_add(1013904223);
        let index = (seed >> 8) % 16;
        let version = 1 + (seed >> 20) % 2;
        let e = entity(index, version);
        match (seed >> 4) % 4 {
            0 | 1 => {
                set.insert(e, step as i32, step);
            }
            2 => {
                set.remove(e);
            }
            _ => {
                if set.len() > 1 {
                    let a = (seed as usize >> 12) % set.len();
                    let b = (seed as usize >> 16) % set.len();
                    set.swap(a, b);
                }
            }
        }
        check_invariants(&set);
    }
}
