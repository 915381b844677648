use portal::util::poll::Poll;
use portal::util::wait_group::protocol::{fast_check, locked_check, must_notify, notify};
use portal::util::wait_group::WaitGroup;

#[test]
fn the_default_group_is_empty() {
    let mut group: WaitGroup<u32> = WaitGroup::default();
    assert_eq!(group.task_num(), 0);
    assert_eq!(group.poll(1), Poll::Ready);
}

#[test]
fn a_group_without_permits_is_ready() {
    let mut group: WaitGroup<u32> = WaitGroup::new();
    assert_eq!(group.task_num(), 0);
    assert_eq!(group.poll(1), Poll::Ready);
    assert_eq!(group.poll(2), Poll::Ready);
}

#[test]
fn the_group_resolves_when_the_last_permit_is_dropped() {
    let mut group: WaitGroup<u32> = WaitGroup::new();
    assert_eq!(group.poll(1), Poll::Ready);
    let first = group.new_permit();
    let second = first.clone(&mut group);
    assert_eq!(group.task_num(), 2);
    assert_eq!(group.poll(7), Poll::Pending);
    assert_eq!(first.release(&mut group), None);
    assert_eq!(group.task_num(), 1);
    assert_eq!(group.poll(7), Poll::Pending);
    assert_eq!(second.release(&mut group), Some(7));
    assert_eq!(group.task_num(), 0);
    assert_eq!(group.poll(7), Poll::Ready);
}

#[test]
fn the_waiter_is_woken_once() {
    let mut group: WaitGroup<u32> = WaitGroup::new();
    let first = group.new_permit();
    assert_eq!(group.poll(7), Poll::Pending);
    assert_eq!(first.release(&mut group), Some(7));
    let second = group.new_permit();
    assert_eq!(second.release(&mut group), None);
    assert_eq!(group.poll(8), Poll::Ready);
}

#[test]
fn without_a_waiter_the_last_permit_wakes_nobody() {
    let mut group: WaitGroup<u32> = WaitGroup::new();
    let first = group.new_permit();
    let second = group.new_permit();
    assert_eq!(second.release(&mut group), None);
    assert_eq!(first.release(&mut group), None);
    assert_eq!(group.poll(1), Poll::Ready);
}

#[test]
fn a_later_poll_replaces_the_waker() {
    let mut group: WaitGroup<u32> = WaitGroup::new();
    let first = group.new_permit();
    assert_eq!(group.poll(1), Poll::Pending);
    assert_eq!(group.poll(2), Poll::Pending);
    assert_eq!(first.release(&mut group), Some(2));
}

#[test]
fn permits_interleave_in_any_order() {
    let mut group: WaitGroup<u32> = WaitGroup::new();
    let a = group.new_permit();
    let b = a.clone(&mut group);
    assert_eq!(a.release(&mut group), None);
    let c = b.clone(&mut group);
    let d = group.new_permit();
    assert_eq!(group.task_num(), 3);
    assert_eq!(group.poll(9), Poll::Pending);
    assert_eq!(d.release(&mut group), None);
    assert_eq!(group.poll(9), Poll::Pending);
    assert_eq!(b.release(&mut group), None);
    assert_eq!(group.poll(9), Poll::Pending);
    assert_eq!(c.release(&mut group), Some(9));
    assert_eq!(group.poll(9), Poll::Ready);
}

#[test]
fn the_fast_check_is_ready_at_zero_only() {
    assert!(fast_check(0));
    assert!(!fast_check(1));
    assert!(!fast_check(usize::MAX));
}

#[test]
fn the_locked_check_leaves_the_waker_while_work_is_outstanding() {
    let mut slot: Option<u32> = None;
    assert_eq!(locked_check(2, &mut slot, 5), Poll::Pending);
    assert_eq!(slot, Some(5));
    assert_eq!(locked_check(1, &mut slot, 6), Poll::Pending);
    assert_eq!(slot, Some(6));
    assert_eq!(locked_check(0, &mut slot, 7), Poll::Ready);
    assert_eq!(slot, Some(6));
    let mut empty: Option<u32> = None;
    assert_eq!(locked_check(0, &mut empty, 7), Poll::Ready);
    assert_eq!(empty, None);
}

#[test]
fn only_the_last_permit_notifies() {
    assert!(must_notify(1));
    assert!(!must_notify(2));
    assert!(!must_notify(3));
    assert!(!must_notify(0));
}

#[test]
fn notify_empties_the_slot() {
    let mut slot = Some(4u32);
    assert_eq!(notify(&mut slot), Some(4));
    assert_eq!(slot, None);
    assert_eq!(notify(&mut slot), None);
    assert_eq!(slot, None);
}

#[test]
fn a_decrement_between_the_two_looks_loses_no_waiter() {
    // The waiter sees one permit outstanding without the lock; the permit is
    // given back before the waiter has the lock.
    let mut counter: usize = 1;
    let mut slot: Option<u32> = None;
    assert!(!fast_check(counter));
    let previous = counter;
    counter -= 1;
    assert!(must_notify(previous));
    assert_eq!(notify(&mut slot), None);
    assert_eq!(locked_check(counter, &mut slot, 3), Poll::Ready);
    assert_eq!(slot, None);
}

#[test]
fn a_decrement_after_the_second_look_wakes_the_waiter() {
    let mut counter: usize = 1;
    let mut slot: Option<u32> = None;
    assert!(!fast_check(counter));
    assert_eq!(locked_check(counter, &mut slot, 3), Poll::Pending);
    let previous = counter;
    counter -= 1;
    assert!(must_notify(previous));
    assert_eq!(notify(&mut slot), Some(3));
    assert!(fast_check(counter));
}

#[test]
fn a_duplicate_outlives_the_permit_that_it_was_made_from() {
    let mut group: WaitGroup<u32> = WaitGroup::new();
    let first = group.new_permit();
    let second = first.clone(&mut group);
    assert_eq!(group.poll(4), Poll::Pending);
    assert_eq!(first.release(&mut group), None);
    let third = second.clone(&mut group);
    assert_eq!(group.task_num(), 2);
    assert_eq!(second.release(&mut group), None);
    assert_eq!(group.poll(4), Poll::Pending);
    assert_eq!(third.release(&mut group), Some(4));
    assert_eq!(group.task_num(), 0);
}

#[test]
fn two_groups_count_their_own_permits() {
    let mut one: WaitGroup<u32> = WaitGroup::new();
    let mut other: WaitGroup<u32> = WaitGroup::new();
    let of_one = one.new_permit();
    let of_other = other.new_permit();
    assert_eq!(one.poll(1), Poll::Pending);
    assert_eq!(other.poll(2), Poll::Pending);
    assert_eq!(of_one.release(&mut one), Some(1));
    assert_eq!(other.task_num(), 1);
    assert_eq!(other.poll(2), Poll::Pending);
    assert_eq!(of_other.release(&mut other), Some(2));
    assert_eq!(other.poll(2), Poll::Ready);
}
