use sparse_ecs::layout::ComponentId;
use sparse_ecs::system_borrow::{acquire, find_conflict, ResourceId, SystemBorrow};
use sparse_ecs::ticks::{
    advance, Added, ChangeTicks, ChangeTicksFilter, Changed, ComponentFlags, ComponentRefMut,
    Passthrough, TickOverflow,
};

#[test]
fn advance_increases_the_tick_by_one() {
    let mut tick: u32 = 1;
    assert_eq!(advance(&mut tick), Ok(()));
    assert_eq!(tick, 2);
    let mut tick: u32 = u32::MAX - 1;
    assert_eq!(advance(&mut tick), Ok(()));
    assert_eq!(tick, u32::MAX);
}

#[test]
fn advance_wraps_to_one_once_and_signals() {
    let mut tick: u32 = u32::MAX;
    assert_eq!(advance(&mut tick), Err(TickOverflow));
    assert_eq!(tick, 1);
    assert_eq!(advance(&mut tick), Ok(()));
    assert_eq!(tick, 2);
}

#[test]
fn change_ticks_constructors() {
    assert_eq!(ChangeTicks::just_added(4), ChangeTicks::new(4, 0));
    assert_eq!(ChangeTicks::just_changed(4), ChangeTicks::new(0, 4));
}

#[test]
fn filters_compare_stamps_with_the_last_run() {
    let ticks = ChangeTicks::new(5, 6);
    assert!(Passthrough::matches(&ticks, 6, 100));
    assert!(Added::matches(&ticks, 6, 5));
    assert!(!Added::matches(&ticks, 6, 6));
    assert!(Changed::matches(&ticks, 6, 5));
    assert!(Changed::matches(&ticks, 6, 6));
    assert!(!Changed::matches(&ticks, 6, 7));
}

#[test]
fn component_flags_operations() {
    let mut flags = ComponentFlags::empty();
    assert!(flags.is_empty());
    assert_eq!(flags.bits(), 0);
    flags.insert(ComponentFlags::added());
    assert_eq!(flags.bits(), 1);
    assert!(flags.contains(ComponentFlags::added()));
    assert!(!flags.contains(ComponentFlags::changed()));
    flags.insert(ComponentFlags::changed());
    assert_eq!(flags.bits(), 3);
    flags.remove(ComponentFlags::added());
    assert_eq!(flags.bits(), 2);
    assert!(flags.contains(ComponentFlags::changed()));
}

#[test]
fn component_ref_mut_marks_the_slot_changed() {
    let mut value = 1;
    let mut flags = ComponentFlags::added();
    {
        let mut reference = ComponentRefMut::new(&mut value, &mut flags);
        assert_eq!(*reference.get(), 1);
        *reference.get_mut() = 5;
    }
    assert_eq!(value, 5);
    assert_eq!(flags.bits(), 3);
}

#[test]
fn component_ref_read_leaves_the_flags_alone() {
    let mut value = 1;
    let mut flags = ComponentFlags::empty();
    {
        let reference = ComponentRefMut::new(&mut value, &mut flags);
        assert_eq!(*reference.get(), 1);
    }
    assert!(flags.is_empty());
}

#[test]
fn conflicts_between_borrows() {
    let a = ComponentId(1);
    let b = ComponentId(2);
    let r = ResourceId(1);
    assert!(SystemBorrow::Comp(a).conflicts_with(&SystemBorrow::CompMut(a)));
    assert!(SystemBorrow::CompMut(a).conflicts_with(&SystemBorrow::Comp(a)));
    assert!(SystemBorrow::CompMut(a).conflicts_with(&SystemBorrow::CompMut(a)));
    assert!(!SystemBorrow::Comp(a).conflicts_with(&SystemBorrow::Comp(a)));
    assert!(!SystemBorrow::Comp(a).conflicts_with(&SystemBorrow::CompMut(b)));
    assert!(SystemBorrow::Res(r).conflicts_with(&SystemBorrow::ResMut(r)));
    assert!(SystemBorrow::ResMut(r).conflicts_with(&SystemBorrow::ResMut(r)));
    assert!(!SystemBorrow::Res(r).conflicts_with(&SystemBorrow::Res(r)));
    assert!(!SystemBorrow::Res(r).conflicts_with(&SystemBorrow::CompMut(a)));
    assert!(!SystemBorrow::Entities.conflicts_with(&SystemBorrow::CompMut(a)));
    assert!(!SystemBorrow::Entities.conflicts_with(&SystemBorrow::Entities));
}

#[test]
fn exclusive_borrow_after_shared_borrow_is_refused() {
    let pos = ComponentId(1);
    let mut held = Vec::new();
    assert_eq!(acquire(&mut held, SystemBorrow::Comp(pos)), Ok(()));
    let conflict = acquire(&mut held, SystemBorrow::CompMut(pos)).unwrap_err();
    assert_eq!(conflict.held, SystemBorrow::Comp(pos));
    assert_eq!(conflict.wanted, SystemBorrow::CompMut(pos));
    assert_eq!(held, vec![SystemBorrow::Comp(pos)]);
    assert_eq!(acquire(&mut held, SystemBorrow::Comp(pos)), Ok(()));
    assert_eq!(held.len(), 2);
}

#[test]
fn find_conflict_reports_the_first_blocking_borrow() {
    let a = ComponentId(1);
    let b = ComponentId(2);
    let held = vec![SystemBorrow::Comp(b), SystemBorrow::Comp(a), SystemBorrow::CompMut(a)];
    assert_eq!(find_conflict(&held, SystemBorrow::CompMut(a)), Some(1));
    assert_eq!(find_conflict(&held, SystemBorrow::Comp(a)), Some(2));
    assert_eq!(find_conflict(&held, SystemBorrow::Comp(b)), None);
    assert_eq!(find_conflict(&held, SystemBorrow::Entities), None);
}
