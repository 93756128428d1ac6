use sparse_ecs::component_storage::ComponentStorage;
use sparse_ecs::entity::{Entity, Version};
use sparse_ecs::layout::{ComponentId, GroupFamily, GroupLayout, LayoutConflict};
use sparse_ecs::masks::{GroupMask, QueryMask, StorageMask};

const A: ComponentId = ComponentId(10);
const B: ComponentId = ComponentId(20);
const C: ComponentId = ComponentId(30);
const D: ComponentId = ComponentId(40);

fn entity(index: u32, version: u32) -> Entity {
    Entity::new(index, Version::new(version).unwrap())
}

fn abc_layout() -> GroupLayout {
    let family = GroupFamily::new(vec![A, B, C], vec![2, 3]).unwrap();
    GroupLayout::new(vec![family]).unwrap()
}

fn entities_of(storage: &ComponentStorage<i32>, id: ComponentId) -> Vec<Entity> {
    storage.borrow(id, 1, 0).set.entities().to_vec()
}

fn check_discipline(storage: &ComponentStorage<i32>, ids: &[ComponentId]) {
    let sets: Vec<Vec<Entity>> = {
        let mut by_index = vec![Vec::new(); storage.storage_count()];
        for id in ids {
            let metadata = storage.metadata(*id).unwrap();
            by_index[metadata.storage_index] = entities_of(storage, *id);
            let view = storage.borrow(*id, 1, 0);
            for (i, e) in view.set.entities().iter().enumerate() {
                assert_eq!(view.set.get_index(*e), Some(i));
            }
            assert_eq!(view.set.entities().len(), view.set.data().len());
            assert_eq!(view.set.entities().len(), view.set.ticks().len());
        }
        by_index
    };
    for group in storage.groups() {
        let start = group.metadata.storage_start;
        let end = group.metadata.storage_end;
        for j in start..end {
            assert!(group.len <= sets[j].len());
            assert_eq!(sets[j][..group.len], sets[start][..group.len]);
            for (i, e) in sets[j].iter().enumerate() {
                let in_all = (start..end).all(|k| sets[k].contains(e));
                assert_eq!(i < group.len, in_all);
            }
        }
    }
}

fn grouped_state() -> (ComponentStorage<i32>, Entity, Entity, Entity) {
    let mut storage: ComponentStorage<i32> = ComponentStorage::new(&abc_layout());
    let e1 = entity(1, 1);
    let e2 = entity(2, 1);
    let e3 = entity(3, 1);
    storage.insert(e1, vec![(A, 11), (B, 12)], 1);
    storage.insert(e2, vec![(A, 21), (B, 22), (C, 23)], 1);
    storage.insert(e3, vec![(A, 31)], 1);
    (storage, e1, e2, e3)
}

#[test]
fn family_conflicts_in_the_order_of_the_checks() {
    assert_eq!(GroupFamily::new(vec![A, B], vec![]).unwrap_err(), LayoutConflict::ArityMismatch);
    assert_eq!(GroupFamily::new(vec![A, B, C], vec![2]).unwrap_err(), LayoutConflict::ArityMismatch);
    assert_eq!(
        GroupFamily::new(vec![A, B], vec![2, 2]).unwrap_err(),
        LayoutConflict::AritiesNotIncreasing
    );
    assert_eq!(
        GroupFamily::new(vec![A, B], vec![3, 2]).unwrap_err(),
        LayoutConflict::AritiesNotIncreasing
    );
    assert_eq!(GroupFamily::new(vec![], vec![0]).unwrap_err(), LayoutConflict::AritiesNotIncreasing);
    assert_eq!(
        GroupFamily::new(vec![A, B, A], vec![2, 3]).unwrap_err(),
        LayoutConflict::ComponentReused
    );
    let many: Vec<ComponentId> = (0..17).map(ComponentId).collect();
    assert_eq!(GroupFamily::new(many, vec![17]).unwrap_err(), LayoutConflict::FamilyTooLarge);
    let family = GroupFamily::new(vec![A, B, C], vec![1, 3]).unwrap();
    assert_eq!(family.components().clone(), vec![A, B, C]);
    assert_eq!(family.arities().clone(), vec![1, 3]);
}

#[test]
fn layout_conflicts_between_families() {
    let first = GroupFamily::new(vec![A, B], vec![2]).unwrap();
    let second = GroupFamily::new(vec![C, A], vec![2]).unwrap();
    assert_eq!(GroupLayout::new(vec![first, second]).unwrap_err(), LayoutConflict::ComponentReused);
    let mut families = Vec::new();
    for f in 0..33u64 {
        families.push(GroupFamily::new(vec![ComponentId(f)], vec![1]).unwrap());
    }
    assert_eq!(GroupLayout::new(families).unwrap_err(), LayoutConflict::TooManyGroups);
    let mut families = Vec::new();
    for f in 0..32u64 {
        families.push(GroupFamily::new(vec![ComponentId(f)], vec![1]).unwrap());
    }
    assert_eq!(GroupLayout::new(families).unwrap().families().len(), 32);
    assert_eq!(GroupLayout::empty().families().len(), 0);
}

#[test]
fn masks_hold_the_bits_asked_for() {
    assert_eq!(StorageMask::none().0, 0);
    assert_eq!(StorageMask::single(0).0, 1);
    assert_eq!(StorageMask::single(15).0, 0x8000);
    assert_eq!(StorageMask::from_to(0, 16).0, 0xffff);
    assert_eq!(StorageMask::from_to(2, 5).0, 0b11100);
    assert_eq!(StorageMask::from_to(3, 3).0, 0);
    assert_eq!(StorageMask::single(1).union(StorageMask::single(4)).0, 0b10010);
    assert!(StorageMask::none().is_empty());
    assert_eq!(GroupMask::none().0, 0);
    assert_eq!(GroupMask::all().0, u32::MAX);
    assert_eq!(GroupMask::from_to(0, 32).0, u32::MAX);
    assert_eq!(GroupMask::from_to(1, 3).0, 0b110);
    assert_eq!(GroupMask::from_to(31, 32).0, 0x8000_0000);
    assert_eq!(GroupMask::skip_from_to(1, 3).0, !0b110u32);
    assert!(GroupMask::from_to(1, 3).contains(2));
    assert!(!GroupMask::from_to(1, 3).contains(3));
    assert_eq!(GroupMask(0b0110).union(GroupMask(0b0011)).0, 0b0111);
    assert_eq!(GroupMask(0b0110).intersection(GroupMask(0b0011)).0, 0b0010);
    assert!(GroupMask::none().is_empty());
    assert_eq!(QueryMask::including(3), QueryMask::new(StorageMask(0b111), StorageMask(0)));
    assert_eq!(QueryMask::excluding(2, 3), QueryMask::new(StorageMask(0b11), StorageMask(0b100)));
    assert_eq!(QueryMask::excluding(0, 2), QueryMask::new(StorageMask(0), StorageMask(0b11)));
}

#[test]
fn new_lays_out_groups_and_registry() {
    let first = GroupFamily::new(vec![A, B, C], vec![2, 3]).unwrap();
    let second = GroupFamily::new(vec![D], vec![1]).unwrap();
    let layout = GroupLayout::new(vec![first, second]).unwrap();
    let storage: ComponentStorage<i32> = ComponentStorage::new(&layout);
    assert_eq!(storage.storage_count(), 4);
    let groups = storage.groups();
    assert_eq!(groups.len(), 3);
    assert_eq!(groups[0].metadata.storage_start, 0);
    assert_eq!(groups[0].metadata.new_storage_start, 0);
    assert_eq!(groups[0].metadata.storage_end, 2);
    assert_eq!(groups[0].metadata.skip_mask, GroupMask(!0b11u32));
    assert_eq!(groups[0].metadata.include_mask, QueryMask::including(2));
    assert_eq!(groups[0].metadata.exclude_mask, QueryMask::excluding(0, 2));
    assert_eq!(groups[0].len, 0);
    assert_eq!(groups[1].metadata.storage_start, 0);
    assert_eq!(groups[1].metadata.new_storage_start, 2);
    assert_eq!(groups[1].metadata.storage_end, 3);
    assert_eq!(groups[1].metadata.skip_mask, GroupMask(!0b10u32));
    assert_eq!(groups[1].metadata.include_mask, QueryMask::including(3));
    assert_eq!(groups[1].metadata.exclude_mask, QueryMask::excluding(2, 3));
    assert_eq!(groups[2].metadata.storage_start, 3);
    assert_eq!(groups[2].metadata.new_storage_start, 3);
    assert_eq!(groups[2].metadata.storage_end, 4);
    assert_eq!(groups[2].metadata.skip_mask, GroupMask(!0b100u32));

    let a = storage.metadata(A).unwrap();
    assert_eq!(a.storage_index, 0);
    assert_eq!(a.insert_mask, GroupMask(0b11));
    assert_eq!(a.delete_mask, GroupMask(0b11));
    assert_eq!(a.group_start, 0);
    assert_eq!(a.group_end, 1);
    assert_eq!(a.storage_mask, StorageMask(0b001));
    let b = storage.metadata(B).unwrap();
    assert_eq!(b.storage_index, 1);
    assert_eq!(b.storage_mask, StorageMask(0b010));
    assert_eq!(b.group_end, 1);
    let c = storage.metadata(C).unwrap();
    assert_eq!(c.storage_index, 2);
    assert_eq!(c.insert_mask, GroupMask(0b11));
    assert_eq!(c.delete_mask, GroupMask(0b10));
    assert_eq!(c.group_start, 0);
    assert_eq!(c.group_end, 2);
    assert_eq!(c.storage_mask, StorageMask(0b100));
    let d = storage.metadata(D).unwrap();
    assert_eq!(d.storage_index, 3);
    assert_eq!(d.insert_mask, GroupMask(0b100));
    assert_eq!(d.delete_mask, GroupMask(0b100));
    assert_eq!(d.group_start, 2);
    assert_eq!(d.group_end, 3);
    assert_eq!(d.storage_mask, StorageMask(0b001));
    assert!(storage.metadata(ComponentId(99)).is_none());
    assert!(storage.is_registered(A));
    assert!(!storage.is_registered(ComponentId(99)));
}

#[test]
fn register_adds_an_ungrouped_set_once() {
    let mut storage: ComponentStorage<i32> = ComponentStorage::empty();
    assert!(!storage.is_registered(A));
    assert!(storage.register(A));
    assert!(storage.is_registered(A));
    assert!(!storage.register(A));
    assert!(storage.register(B));
    assert_eq!(storage.storage_count(), 2);
    let a = storage.metadata(A).unwrap();
    assert_eq!(a.storage_index, 0);
    assert_eq!(a.insert_mask, GroupMask(0));
    assert_eq!(a.delete_mask, GroupMask(0));
    assert_eq!(a.group_end, 0);
    assert_eq!(a.storage_mask, StorageMask(0));
    assert_eq!(storage.metadata(B).unwrap().storage_index, 1);
    assert!(storage.borrow(A, 1, 0).group_info.is_none());
}

#[test]
fn grouping_keeps_the_grouped_entities_in_front() {
    let (storage, e1, e2, e3) = grouped_state();
    assert_eq!(storage.groups()[0].len, 2);
    assert_eq!(storage.groups()[1].len, 1);
    assert_eq!(entities_of(&storage, A), vec![e2, e1, e3]);
    assert_eq!(entities_of(&storage, B), vec![e2, e1]);
    assert_eq!(entities_of(&storage, C), vec![e2]);
    assert_eq!(storage.borrow(A, 1, 0).get(e1), Some(&11));
    assert_eq!(storage.borrow(A, 1, 0).get(e2), Some(&21));
    assert_eq!(storage.borrow(A, 1, 0).get(e3), Some(&31));
    assert_eq!(storage.borrow(B, 1, 0).get(e1), Some(&12));
    assert_eq!(storage.borrow(B, 1, 0).get(e3), None);
    assert_eq!(storage.borrow(C, 1, 0).get(e2), Some(&23));
    check_discipline(&storage, &[A, B, C]);
}

#[test]
fn deleting_a_component_demotes_the_entity() {
    let (mut storage, e1, e2, e3) = grouped_state();
    storage.delete(e1, &vec![B]);
    assert_eq!(storage.groups()[0].len, 1);
    assert_eq!(storage.groups()[1].len, 1);
    assert_eq!(entities_of(&storage, A)[0], e2);
    assert_eq!(entities_of(&storage, B), vec![e2]);
    assert!(storage.borrow(A, 1, 0).contains(e1));
    assert!(storage.borrow(A, 1, 0).contains(e3));
    assert!(!storage.borrow(B, 1, 0).contains(e1));
    check_discipline(&storage, &[A, B, C]);
}

#[test]
fn removing_components_hands_them_back() {
    let (mut storage, e1, e2, _) = grouped_state();
    assert_eq!(storage.remove(e2, &vec![C, A]), vec![Some(23), Some(21)]);
    assert_eq!(storage.groups()[0].len, 1);
    assert_eq!(storage.groups()[1].len, 0);
    assert_eq!(entities_of(&storage, B)[0], e1);
    assert_eq!(entities_of(&storage, A)[0], e1);
    check_discipline(&storage, &[A, B, C]);
    assert_eq!(storage.remove(e2, &vec![C, A, B, B]), vec![None, None, Some(22), None]);
    check_discipline(&storage, &[A, B, C]);
    assert_eq!(storage.remove(entity(9, 1), &vec![A]), vec![None]);
    assert_eq!(storage.remove(e1, &vec![]), Vec::<Option<i32>>::new());
    check_discipline(&storage, &[A, B, C]);
}

#[test]
fn delete_all_removes_the_entity_everywhere() {
    let (mut storage, e1, e2, e3) = grouped_state();
    storage.delete_all(e2);
    assert_eq!(storage.groups()[0].len, 1);
    assert_eq!(storage.groups()[1].len, 0);
    for id in [A, B, C] {
        assert!(!storage.borrow(id, 1, 0).contains(e2));
    }
    assert_eq!(entities_of(&storage, A), vec![e1, e3]);
    assert_eq!(entities_of(&storage, B), vec![e1]);
    check_discipline(&storage, &[A, B, C]);
}

#[test]
fn delete_all_twice_changes_nothing_more() {
    let (mut storage, _, e2, _) = grouped_state();
    storage.delete_all(e2);
    let groups: Vec<usize> = storage.groups().iter().map(|g| g.len).collect();
    let a = entities_of(&storage, A);
    let b = entities_of(&storage, B);
    let c = entities_of(&storage, C);
    let data_a = storage.borrow(A, 1, 0).set.data().to_vec();
    storage.delete_all(e2);
    assert_eq!(storage.groups().iter().map(|g| g.len).collect::<Vec<usize>>(), groups);
    assert_eq!(entities_of(&storage, A), a);
    assert_eq!(entities_of(&storage, B), b);
    assert_eq!(entities_of(&storage, C), c);
    assert_eq!(storage.borrow(A, 1, 0).set.data().to_vec(), data_a);
    check_discipline(&storage, &[A, B, C]);
}

#[test]
fn completing_a_group_later_promotes_the_entity() {
    let (mut storage, e1, e2, e3) = grouped_state();
    storage.insert(e3, vec![(C, 33)], 2);
    assert_eq!(storage.groups()[0].len, 2);
    assert_eq!(storage.groups()[1].len, 1);
    storage.insert(e3, vec![(B, 32)], 3);
    assert_eq!(storage.groups()[0].len, 3);
    assert_eq!(storage.groups()[1].len, 2);
    assert_eq!(entities_of(&storage, A), vec![e2, e3, e1]);
    assert_eq!(entities_of(&storage, B), vec![e2, e3, e1]);
    assert_eq!(entities_of(&storage, C), vec![e2, e3]);
    assert_eq!(storage.borrow(A, 1, 0).get(e3), Some(&31));
    assert_eq!(storage.borrow(B, 1, 0).get(e3), Some(&32));
    assert_eq!(storage.borrow(B, 1, 0).get(e1), Some(&12));
    check_discipline(&storage, &[A, B, C]);
}

#[test]
fn inserting_again_overwrites_without_regrouping() {
    let (mut storage, e1, e2, e3) = grouped_state();
    storage.insert(e1, vec![(A, 110), (A, 111)], 7);
    assert_eq!(entities_of(&storage, A), vec![e2, e1, e3]);
    assert_eq!(storage.borrow(A, 1, 0).get(e1), Some(&111));
    let ticks = storage.borrow(A, 1, 0).get_ticks(e1).unwrap();
    assert_eq!(ticks.added, 1);
    assert_eq!(ticks.changed, 7);
    assert_eq!(storage.groups()[0].len, 2);
    check_discipline(&storage, &[A, B, C]);
}

#[test]
fn a_stale_identifier_is_refused_by_insert() {
    let (mut storage, e1, _, _) = grouped_state();
    let stale = entity(1, 2);
    storage.insert(stale, vec![(A, 5), (C, 6)], 9);
    assert!(!storage.borrow(A, 1, 0).contains(stale));
    assert!(storage.borrow(A, 1, 0).contains(e1));
    assert!(storage.borrow(C, 1, 0).contains(stale));
    check_discipline(&storage, &[A, B, C]);
}

#[test]
fn storage_get_mut_stamps_and_writes() {
    let (mut storage, e1, _, e3) = grouped_state();
    *storage.get_mut(e1, B, 4).unwrap() = 120;
    assert_eq!(storage.borrow(B, 1, 0).get(e1), Some(&120));
    assert_eq!(storage.borrow(B, 1, 0).get_ticks(e1).unwrap().changed, 4);
    assert_eq!(storage.borrow(B, 1, 0).get_ticks(e1).unwrap().added, 1);
    assert!(storage.get_mut(e3, B, 4).is_none());
    check_discipline(&storage, &[A, B, C]);
}

#[test]
fn clear_empties_sets_and_groups() {
    let (mut storage, _, _, _) = grouped_state();
    storage.clear();
    assert_eq!(storage.groups().len(), 2);
    assert_eq!(storage.groups()[0].len, 0);
    assert_eq!(storage.groups()[1].len, 0);
    assert_eq!(storage.groups()[1].metadata.storage_end, 3);
    for id in [A, B, C] {
        assert!(storage.is_registered(id));
        assert_eq!(storage.borrow(id, 1, 0).len(), 0);
    }
    check_discipline(&storage, &[A, B, C]);
}

#[test]
fn two_families_do_not_disturb_each_other() {
    let first = GroupFamily::new(vec![A, B], vec![2]).unwrap();
    let second = GroupFamily::new(vec![C, D], vec![1, 2]).unwrap();
    let layout = GroupLayout::new(vec![first, second]).unwrap();
    let mut storage: ComponentStorage<i32> = ComponentStorage::new(&layout);
    assert!(storage.register(ComponentId(50)));
    let ids = [A, B, C, D, ComponentId(50)];
    let e1 = entity(0, 1);
    let e2 = entity(1, 1);
    let e3 = entity(2, 1);
    storage.insert(e1, vec![(A, 1), (C, 1), (ComponentId(50), 1)], 1);
    storage.insert(e2, vec![(A, 2), (B, 2), (C, 2), (D, 2)], 1);
    storage.insert(e3, vec![(D, 3), (B, 3)], 1);
    check_discipline(&storage, &ids);
    assert_eq!(storage.groups()[0].len, 1);
    assert_eq!(storage.groups()[1].len, 2);
    assert_eq!(storage.groups()[2].len, 1);
    storage.insert(e1, vec![(B, 1), (D, 1)], 2);
    check_discipline(&storage, &ids);
    assert_eq!(storage.groups()[0].len, 2);
    assert_eq!(storage.groups()[2].len, 2);
    storage.delete(e2, &vec![A, D]);
    check_discipline(&storage, &ids);
    assert_eq!(storage.groups()[0].len, 1);
    assert_eq!(storage.groups()[1].len, 2);
    assert_eq!(storage.groups()[2].len, 1);
    storage.delete_all(e1);
    check_discipline(&storage, &ids);
    assert_eq!(storage.groups()[0].len, 0);
    assert_eq!(storage.groups()[1].len, 1);
    assert_eq!(storage.groups()[2].len, 0);
}

#[test]
fn discipline_holds_over_a_mixed_sequence() {
    let first = GroupFamily::new(vec![A, B, C], vec![1, 2, 3]).unwrap();
    let second = GroupFamily::new(vec![D, ComponentId(50), ComponentId(60)], vec![3]).unwrap();
    let layout = GroupLayout::new(vec![first, second]).unwrap();
    let mut storage: ComponentStorage<i32> = ComponentStorage::new(&layout);
    assert!(storage.register(ComponentId(70)));
    let ids = [A, B, C, D, ComponentId(50), ComponentId(60), ComponentId(70)];
    let mut seed: u32 = 2024;
    for step in 0..600u32 {
        seed = seed.wrapping_mul(1664525).wrapping_add(1013904223);
        let e = entity((seed >> 8) % 12, 1 + (seed >> 29) % 2);
        let first = ids[(seed as usize >> 12) % ids.len()];
        let second = ids[(seed as usize >> 16) % ids.len()];
        match (seed >> 4) % 8 {
            0 | 1 | 2 => storage.insert(e, vec![(first, step as i32)], step),
            3 => storage.insert(e, vec![(first, 1), (second, 2)], step),
            4 => storage.delete(e, &vec![first]),
            5 => {
                storage.remove(e, &vec![first, second]);
            }
            6 => storage.delete_all(e),
            _ => {
                storage.get_mut(e, first, step);
            }
        }
        check_discipline(&storage, &ids);
    }
}

#[test]
fn storage_borrow_mut_leaves_the_entities_in_place() {
    let (mut storage, e1, e2, e3) = grouped_state();
    {
        let mut view = storage.borrow_mut(B, 8, 7);
        assert_eq!(view.len(), 2);
        *view.get_mut(e1).unwrap() += 100;
        assert!(view.get_mut(e3).is_none());
    }
    assert_eq!(storage.borrow(B, 1, 0).get(e1), Some(&112));
    assert_eq!(storage.borrow(B, 1, 0).get(e2), Some(&22));
    assert_eq!(storage.borrow(B, 1, 0).get_ticks(e1).unwrap().changed, 8);
    assert_eq!(entities_of(&storage, B), vec![e2, e1]);
    check_discipline(&storage, &[A, B, C]);
}
