use sparse_ecs::component_storage::ComponentStorage;
use sparse_ecs::entity::{Entity, Version};
use sparse_ecs::group_info::{common_group_family, group_range, CombinedGroupInfo, GroupInfo};
use sparse_ecs::iter::{ComponentQuery, DenseIter, QueryIter, SparseIter};
use sparse_ecs::layout::{ComponentId, GroupFamily, GroupLayout};
use sparse_ecs::masks::StorageMask;
use sparse_ecs::query::{Query, QueryElement, QueryModifier};
use sparse_ecs::ticks::{Added, ChangeTicksFilter, Changed, Passthrough};
use sparse_ecs::view::{Comp, ComponentViewData};

const A: ComponentId = ComponentId(10);
const B: ComponentId = ComponentId(20);
const C: ComponentId = ComponentId(30);
const POS: ComponentId = ComponentId(1);
const VEL: ComponentId = ComponentId(2);

fn entity(index: u32, version: u32) -> Entity {
    Entity::new(index, Version::new(version).unwrap())
}

fn views<'a>(storage: &'a ComponentStorage<i32>, ids: &[ComponentId], last_run: u32) -> Vec<Comp<'a, i32>> {
    ids.iter().map(|id| storage.borrow(*id, 100, last_run)).collect()
}

fn run<F: ChangeTicksFilter>(query: &ComponentQuery<i32>) -> (bool, Vec<(Entity, Vec<i32>)>) {
    let mut produced = Vec::new();
    match query.iter::<F>() {
        QueryIter::Dense(mut dense) => {
            while let Some((e, components)) = dense.next_with_entity() {
                produced.push((e, components.into_iter().copied().collect()));
            }
            (true, produced)
        }
        QueryIter::Sparse(mut sparse) => {
            while let Some((e, components)) = sparse.next_with_entity() {
                produced.push((e, components.into_iter().copied().collect()));
            }
            (false, produced)
        }
    }
}

fn plain_state() -> (ComponentStorage<i32>, Entity, Entity) {
    let mut storage: ComponentStorage<i32> = ComponentStorage::empty();
    storage.register(POS);
    storage.register(VEL);
    let e1 = entity(1, 1);
    let e2 = entity(2, 1);
    storage.insert(e1, vec![(POS, 10), (VEL, 11)], 1);
    storage.insert(e2, vec![(POS, 20)], 1);
    (storage, e1, e2)
}

fn grouped_state() -> (ComponentStorage<i32>, Entity, Entity, Entity) {
    let family = GroupFamily::new(vec![A, B, C], vec![2, 3]).unwrap();
    let layout = GroupLayout::new(vec![family]).unwrap();
    let mut storage: ComponentStorage<i32> = ComponentStorage::new(&layout);
    let e1 = entity(1, 1);
    let e2 = entity(2, 1);
    let e3 = entity(3, 1);
    storage.insert(e1, vec![(A, 11), (B, 12)], 1);
    storage.insert(e2, vec![(A, 21), (B, 22), (C, 23)], 1);
    storage.insert(e3, vec![(A, 31)], 1);
    (storage, e1, e2, e3)
}

#[test]
fn ungrouped_query_over_two_views() {
    let (storage, e1, _) = plain_state();
    let query = ComponentQuery::new(views(&storage, &[POS, VEL], 0));
    assert_eq!(query.group_range(), None);
    assert_eq!(run::<Passthrough>(&query), (false, vec![(e1, vec![10, 11])]));
}

#[test]
fn ungrouped_query_with_exclusion() {
    let (storage, _, e2) = plain_state();
    let query =
        ComponentQuery::new(views(&storage, &[POS], 0)).excluding(views(&storage, &[VEL], 0));
    assert_eq!(run::<Passthrough>(&query), (false, vec![(e2, vec![20])]));
}

#[test]
fn ungrouped_query_with_inclusion() {
    let (storage, e1, e2) = plain_state();
    let query =
        ComponentQuery::new(views(&storage, &[POS], 0)).including(views(&storage, &[VEL], 0));
    assert_eq!(run::<Passthrough>(&query), (false, vec![(e1, vec![10])]));
    assert!(query.matches::<Passthrough>(e1));
    assert!(!query.matches::<Passthrough>(e2));
    assert_eq!(query.get::<Passthrough>(e1), Some(vec![&10]));
    assert_eq!(query.get::<Passthrough>(e2), None);
    assert_eq!(query.get::<Passthrough>(entity(1, 2)), None);
}

#[test]
fn query_without_base_produces_nothing() {
    let (storage, _, _) = plain_state();
    let query = ComponentQuery::new(Vec::new()).including(views(&storage, &[POS], 0));
    assert_eq!(run::<Passthrough>(&query), (false, vec![]));
}

#[test]
fn sparse_iteration_walks_the_shortest_view() {
    let (storage, e1, _) = plain_state();
    let query = ComponentQuery::new(views(&storage, &[POS, VEL], 0));
    match query.iter::<Passthrough>() {
        QueryIter::Sparse(mut sparse) => {
            assert_eq!(sparse.next(), Some(vec![&10, &11]));
            assert_eq!(sparse.next(), None);
            assert_eq!(sparse.next_with_entity(), None);
        }
        QueryIter::Dense(_) => panic!("the views share no group"),
    }
    let entities = vec![entity(9, 1), e1, e1];
    let mut sparse: SparseIter<i32, Passthrough> = SparseIter::new(&query, &entities);
    assert_eq!(sparse.next_with_entity(), Some((e1, vec![&10, &11])));
    assert_eq!(sparse.next_with_entity(), Some((e1, vec![&10, &11])));
    assert_eq!(sparse.next_with_entity(), None);
    let mut nothing: SparseIter<i32, Passthrough> = SparseIter::empty(&query);
    assert_eq!(nothing.next(), None);
}

#[test]
fn grouped_queries_iterate_dense_windows() {
    let (storage, e1, e2, _) = grouped_state();
    let ab = ComponentQuery::new(views(&storage, &[A, B], 0));
    assert_eq!(ab.group_range(), Some(0..2));
    assert_eq!(run::<Passthrough>(&ab), (true, vec![(e2, vec![21, 22]), (e1, vec![11, 12])]));
    let abc = ComponentQuery::new(views(&storage, &[A, B, C], 0));
    assert_eq!(abc.group_range(), Some(0..1));
    assert_eq!(run::<Passthrough>(&abc), (true, vec![(e2, vec![21, 22, 23])]));
    let ab_not_c =
        ComponentQuery::new(views(&storage, &[A, B], 0)).excluding(views(&storage, &[C], 0));
    assert_eq!(ab_not_c.group_range(), Some(1..2));
    assert_eq!(run::<Passthrough>(&ab_not_c), (true, vec![(e1, vec![11, 12])]));
    let a_with_b =
        ComponentQuery::new(views(&storage, &[A], 0)).including(views(&storage, &[B], 0));
    assert_eq!(a_with_b.group_range(), Some(0..2));
    assert_eq!(run::<Passthrough>(&a_with_b), (true, vec![(e2, vec![21]), (e1, vec![11])]));
}

#[test]
fn views_that_form_no_group_fall_back_to_lookups() {
    let (storage, e1, e2, e3) = grouped_state();
    let a = ComponentQuery::new(views(&storage, &[A], 0));
    assert_eq!(a.group_range(), None);
    assert_eq!(run::<Passthrough>(&a), (false, vec![(e2, vec![21]), (e1, vec![11]), (e3, vec![31])]));
    let ac = ComponentQuery::new(views(&storage, &[A, C], 0));
    assert_eq!(ac.group_range(), None);
    assert_eq!(run::<Passthrough>(&ac), (false, vec![(e2, vec![21, 23])]));
    let a_not_b =
        ComponentQuery::new(views(&storage, &[A], 0)).excluding(views(&storage, &[B], 0));
    assert_eq!(a_not_b.group_range(), None);
    assert_eq!(run::<Passthrough>(&a_not_b), (false, vec![(e3, vec![31])]));
}

#[test]
fn dense_and_sparse_iteration_agree() {
    let (storage, _, _, _) = grouped_state();
    let ab = ComponentQuery::new(views(&storage, &[A, B], 0));
    let (dense, mut by_window) = run::<Passthrough>(&ab);
    assert!(dense);
    let driving = storage.borrow(B, 100, 0);
    let mut sparse: SparseIter<i32, Passthrough> = SparseIter::new(&ab, driving.set.entities());
    let mut by_lookup = Vec::new();
    while let Some((e, components)) = sparse.next_with_entity() {
        by_lookup.push((e, components.into_iter().copied().collect::<Vec<i32>>()));
    }
    by_window.sort();
    by_lookup.sort();
    assert_eq!(by_window, by_lookup);
}

#[test]
fn dense_iterator_over_a_given_window() {
    let (storage, e1, e2, _) = grouped_state();
    let ab = ComponentQuery::new(views(&storage, &[A, B], 0));
    let entities = storage.borrow(A, 100, 0).set.entities().to_vec();
    let mut dense: DenseIter<i32, Passthrough> = DenseIter::new(&ab, &entities, 1..2);
    assert_eq!(dense.next_with_entity(), Some((e1, vec![&11, &12])));
    assert_eq!(dense.next_with_entity(), None);
    let mut dense: DenseIter<i32, Passthrough> = DenseIter::new(&ab, &entities, 0..1);
    assert_eq!(dense.next_with_entity(), Some((e2, vec![&21, &22])));
    assert_eq!(dense.next_with_entity(), None);
    assert!(ab.has_slots(2));
    assert!(!ab.has_slots(3));
    assert_eq!(ab.slot_components(1), vec![&11, &12]);
    assert!(ab.check_slot::<Passthrough>(0));
}

#[test]
fn filters_select_by_stamps() {
    let family = GroupFamily::new(vec![A, B], vec![2]).unwrap();
    let layout = GroupLayout::new(vec![family]).unwrap();
    let mut storage: ComponentStorage<i32> = ComponentStorage::new(&layout);
    storage.register(C);
    let e1 = entity(1, 1);
    let e2 = entity(2, 1);
    storage.insert(e1, vec![(A, 1), (B, 1), (C, 1)], 3);
    storage.insert(e2, vec![(A, 2), (B, 2), (C, 2)], 8);
    *storage.get_mut(e1, A, 9).unwrap() = 5;
    *storage.get_mut(e1, B, 9).unwrap() = 5;
    *storage.get_mut(e1, C, 9).unwrap() = 5;

    let dense = ComponentQuery::new(views(&storage, &[A, B], 5));
    assert_eq!(run::<Added>(&dense), (true, vec![(e2, vec![2, 2])]));
    assert_eq!(run::<Changed>(&dense), (true, vec![(e1, vec![5, 5])]));
    assert_eq!(run::<Passthrough>(&dense).1.len(), 2);
    let sparse = ComponentQuery::new(views(&storage, &[C], 5));
    assert_eq!(run::<Added>(&sparse), (false, vec![(e2, vec![2])]));
    assert_eq!(run::<Changed>(&sparse), (false, vec![(e1, vec![5])]));
    let late = ComponentQuery::new(views(&storage, &[C], 10));
    assert_eq!(run::<Added>(&late), (false, vec![]));
    assert_eq!(run::<Changed>(&late), (false, vec![]));
    assert!(sparse.matches::<Changed>(e1));
    assert!(!sparse.matches::<Changed>(e2));
    assert_eq!(sparse.get::<Added>(e2), Some(vec![&2]));
    assert_eq!(sparse.get::<Added>(e1), None);
}

#[test]
fn group_info_combines_within_a_family_only() {
    let first = GroupFamily::new(vec![A, B], vec![2]).unwrap();
    let second = GroupFamily::new(vec![C, POS], vec![1, 2]).unwrap();
    let layout = GroupLayout::new(vec![first, second]).unwrap();
    let mut storage: ComponentStorage<i32> = ComponentStorage::new(&layout);
    storage.register(VEL);
    let a = storage.borrow(A, 1, 0).group_info().unwrap();
    let b = storage.borrow(B, 1, 0).group_info().unwrap();
    let c = storage.borrow(C, 1, 0).group_info().unwrap();
    let pos = storage.borrow(POS, 1, 0).group_info().unwrap();
    assert!(storage.borrow(VEL, 1, 0).group_info().is_none());
    assert_eq!((a.family, a.group_offset, a.storage_mask), (0, 0, StorageMask(1)));
    assert_eq!((b.family, b.group_offset, b.storage_mask), (0, 0, StorageMask(2)));
    assert_eq!((c.family, c.group_offset, c.storage_mask), (1, 0, StorageMask(1)));
    assert_eq!((pos.family, pos.group_offset, pos.storage_mask), (1, 1, StorageMask(2)));
    let ab = a.combine(&b).unwrap();
    assert_eq!((ab.family, ab.group_offset, ab.storage_mask), (0, 0, StorageMask(3)));
    assert!(a.combine(&c).is_none());
    let both = c.combine(&pos).unwrap();
    assert_eq!((both.family, both.group_offset, both.storage_mask), (1, 1, StorageMask(3)));
    assert_eq!(pos.combine(&c).unwrap().group_offset, 1);
    assert_eq!(ab.group_len(), Some(0));
    assert_eq!(a.group_len(), None);
    assert_eq!(c.group_len(), Some(0));
    assert_eq!(ab.include_group_range(), Some(0..0));
    assert_eq!(a.include_group_range(), None);
}

#[test]
fn group_ranges_follow_the_group_lengths() {
    let (storage, _, _, _) = grouped_state();
    let a = storage.borrow(A, 1, 0).group_info().unwrap();
    let b = storage.borrow(B, 1, 0).group_info().unwrap();
    let c = storage.borrow(C, 1, 0).group_info().unwrap();
    let ab = a.combine(&b).unwrap();
    let abc = ab.combine(&c).unwrap();
    assert_eq!(ab.group_len(), Some(2));
    assert_eq!(abc.group_len(), Some(1));
    assert_eq!(abc.include_group_range(), Some(0..1));
    assert_eq!(ab.exclude_group_range(&c), Some(1..2));
    assert_eq!(a.exclude_group_range(&c), None);
    assert_eq!(a.exclude_group_range(&b), None);
    assert_eq!(ab.exclude_group_range(&b), None);
    let info = GroupInfo::new(storage.groups(), 0, 1, StorageMask(0b111));
    assert_eq!(info.group_len(), Some(1));
}

#[test]
fn combined_group_info_starts_from_nothing() {
    let (storage, _, _, _) = grouped_state();
    let a = storage.borrow(A, 1, 0).group_info().unwrap();
    let b = storage.borrow(B, 1, 0).group_info().unwrap();
    let c = storage.borrow(C, 1, 0).group_info().unwrap();
    let none = CombinedGroupInfo::empty();
    assert!(none.group_family.is_none());
    let one = none.combine(a).unwrap();
    assert_eq!(one.group_family.unwrap().family, 0);
    assert_eq!(one.max_group_offset, 0);
    assert_eq!(one.storage_mask, StorageMask(1));
    let two = one.combine(b).unwrap();
    assert_eq!(two.storage_mask, StorageMask(3));
    let three = two.combine(c).unwrap();
    assert_eq!(three.max_group_offset, 1);
    assert_eq!(three.storage_mask, StorageMask(7));
    let other = GroupInfo::new(storage.groups(), 1, 0, StorageMask(1));
    assert!(two.combine(other).is_none());

    let only_c = none.combine(c).unwrap();
    assert_eq!(group_range(two, none, none), Some(0..2));
    assert_eq!(group_range(one, none.combine(b).unwrap(), none), Some(0..2));
    assert_eq!(group_range(three, none, none), Some(0..1));
    assert_eq!(group_range(two, none, only_c), Some(1..2));
    assert_eq!(group_range(one, none, none), None);
    assert_eq!(group_range(one, none, only_c), None);
    let elsewhere = none.combine(GroupInfo::new(storage.groups(), 1, 0, StorageMask(2))).unwrap();
    assert_eq!(group_range(one, elsewhere, none), None);
    assert_eq!(group_range(one, none.combine(b).unwrap(), elsewhere), None);
}

#[test]
fn common_group_family_of_optional_families() {
    assert_eq!(common_group_family(&[]), None);
    assert_eq!(common_group_family(&[None, None]), None);
    assert_eq!(common_group_family(&[None, Some(2), None]), Some(2));
    assert_eq!(common_group_family(&[Some(2), Some(2), None, Some(2)]), Some(2));
    assert_eq!(common_group_family(&[Some(2), Some(3)]), None);
    assert_eq!(common_group_family(&[Some(2), None, Some(3), Some(2)]), None);
}

#[test]
fn view_accessors() {
    let (storage, e1, e2) = plain_state();
    let pos = storage.borrow(POS, 7, 3);
    assert_eq!(pos.len(), 2);
    assert!(pos.contains(e1));
    assert_eq!(pos.get_index(e2), Some(1));
    assert_eq!(pos.get(e2), Some(&20));
    assert_eq!(pos.get_ticks(e2).unwrap().added, 1);
    assert_eq!(pos.change_detection_ticks(), (7, 3));
    let (entities, sparse, data) = pos.split();
    assert_eq!(entities.to_vec(), vec![e1, e2]);
    assert_eq!(sparse.get(2, Version::first()), Some(1));
    assert_eq!(data.components.to_vec(), vec![10, 20]);
    assert_eq!(data.ticks.len(), 2);
    let again = ComponentViewData::new(data.components, data.ticks);
    assert_eq!(again.components.len(), 2);
    assert_eq!(pos.count(), 2);
    assert!(pos.holds(e1));
    assert_eq!(pos.position(e1), Some(0));
    let copy = Comp::new(pos.set, None, 1, 0);
    assert_eq!(copy.len(), 2);
}

#[test]
fn view_lists_answer_for_all_their_views() {
    let (storage, e1, e2) = plain_state();
    let both = views(&storage, &[POS, VEL], 0);
    assert!(both.includes(e1));
    assert!(!both.includes(e2));
    assert!(!both.excludes(e1));
    assert!(!both.excludes(e2));
    assert!(both.excludes(entity(5, 1)));
    assert_eq!(both.get_indexes(e1), Some(vec![0, 0]));
    assert_eq!(both.get_indexes(e2), None);
    assert_eq!(Query::get(&both, e1), Some(vec![&10, &11]));
    assert_eq!(Query::get(&both, e2), None);
    assert_eq!(both.shortest(), Some(1));
    assert_eq!(views(&storage, &[POS], 0).shortest(), Some(0));
    assert_eq!(views(&storage, &[], 0).shortest(), None);
    assert!(both.combine_group_info(CombinedGroupInfo::empty()).is_none());
    let empty: Vec<Comp<i32>> = Vec::new();
    assert!(empty.combine_group_info(CombinedGroupInfo::empty()).unwrap().group_family.is_none());
    assert!(empty.includes(e1));
    assert!(empty.excludes(e1));
}

#[test]
fn query_iter_steps_in_the_way_it_was_started() {
    let (storage, e1, e2, e3) = grouped_state();
    let ab = ComponentQuery::new(views(&storage, &[A, B], 0));
    let mut iter = ab.iter::<Passthrough>();
    assert!(matches!(iter, QueryIter::Dense(_)));
    assert_eq!(iter.next_with_entity(), Some((e2, vec![&21, &22])));
    assert_eq!(iter.next_with_entity(), Some((e1, vec![&11, &12])));
    assert_eq!(iter.next_with_entity(), None);
    assert_eq!(iter.next_with_entity(), None);
    let a = ComponentQuery::new(views(&storage, &[A], 0));
    let mut iter = a.iter::<Passthrough>();
    assert!(matches!(iter, QueryIter::Sparse(_)));
    assert_eq!(iter.next_with_entity(), Some((e2, vec![&21])));
    assert_eq!(iter.next_with_entity(), Some((e1, vec![&11])));
    assert_eq!(iter.next_with_entity(), Some((e3, vec![&31])));
    assert_eq!(iter.next_with_entity(), None);
}
