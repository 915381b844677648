use portal::util::context::{Context, ContextCancelFuture, ContextTree, TimerOutcome};
use portal::util::poll::Poll;
use std::time::Duration;

fn sorted(mut wakers: Vec<u32>) -> Vec<u32> {
    wakers.sort();
    wakers
}

fn sorted_ids(mut ids: Vec<usize>) -> Vec<usize> {
    ids.sort();
    ids
}

/// Begins a wait of its own for `ctx` and polls it once with `waker`.
fn suspend(tree: &mut ContextTree<u32>, ctx: Context, waker: u32) -> ContextCancelFuture {
    let wait = tree.cancelled(ctx);
    assert_eq!(tree.poll(&wait, waker), Poll::Pending);
    wait
}

/// What a wait of its own for `ctx` is answered at its first poll.
fn first_poll(tree: &mut ContextTree<u32>, ctx: Context, waker: u32) -> Poll {
    let wait = tree.cancelled(ctx);
    tree.poll(&wait, waker)
}

fn family() -> (ContextTree<u32>, Context, Context, Context, Context, Context) {
    let mut tree = ContextTree::new();
    let parent = tree.new_context();
    let c1 = tree.new_child(parent);
    let c2 = tree.new_child(parent);
    let c3 = tree.new_child(parent);
    let g1 = tree.new_child(c1);
    (tree, parent, c1, c2, c3, g1)
}

#[test]
fn a_new_tree_is_empty() {
    let tree: ContextTree<u32> = ContextTree::new();
    assert_eq!(tree.len(), 0);
}

#[test]
fn ids_are_handed_out_in_order() {
    let (tree, parent, c1, c2, c3, g1) = family();
    assert_eq!(parent.id(), 0);
    assert_eq!(c1.id(), 1);
    assert_eq!(c2.id(), 2);
    assert_eq!(c3.id(), 3);
    assert_eq!(g1.id(), 4);
    assert_eq!(tree.len(), 5);
    assert!(tree.contains(g1));
}

#[test]
fn parent_ids_follow_the_derivation() {
    let (tree, parent, c1, c2, c3, g1) = family();
    assert_eq!(tree.parent_id(parent), None);
    assert_eq!(tree.parent_id(c1), Some(parent.id()));
    assert_eq!(tree.parent_id(c2), Some(parent.id()));
    assert_eq!(tree.parent_id(c3), Some(parent.id()));
    assert_eq!(tree.parent_id(g1), Some(c1.id()));
}

#[test]
fn a_new_context_is_alive() {
    let (mut tree, parent, c1, _c2, _c3, g1) = family();
    assert!(!tree.is_cancelled(parent));
    assert!(!tree.is_cancelled(c1));
    assert!(!tree.is_cancelled(g1));
    suspend(&mut tree, g1, 1);
}

#[test]
fn await_resolves_after_cancel_on_the_context() {
    let mut tree: ContextTree<u32> = ContextTree::new();
    let ctx = tree.new_context();
    suspend(&mut tree, ctx, 1);
    let woken = tree.cancel(ctx).woken;
    assert_eq!(woken, vec![1]);
    assert_eq!(first_poll(&mut tree, ctx, 2), Poll::Ready);
    let wait = tree.cancelled(ctx);
    assert_eq!(wait.poll(&mut tree, 3), Poll::Ready);
    assert_eq!(wait.poll(&mut tree, 3), Poll::Ready);
}

#[test]
fn await_resolves_after_cancel_on_an_ancestor() {
    let (mut tree, parent, _c1, _c2, _c3, g1) = family();
    suspend(&mut tree, g1, 1);
    let woken = tree.cancel(parent).woken;
    assert_eq!(woken, vec![1]);
    assert_eq!(first_poll(&mut tree, g1, 2), Poll::Ready);
}

#[test]
fn await_stays_pending_without_cancel() {
    let (mut tree, _parent, c1, c2, _c3, g1) = family();
    let woken = tree.cancel(g1).woken;
    assert!(woken.is_empty());
    suspend(&mut tree, c1, 1);
    suspend(&mut tree, c2, 2);
    suspend(&mut tree, c1, 3);
}

#[test]
fn cancel_is_idempotent() {
    let mut tree: ContextTree<u32> = ContextTree::new();
    let ctx = tree.new_context();
    let child = tree.new_child(ctx);
    suspend(&mut tree, ctx, 1);
    suspend(&mut tree, child, 2);
    assert_eq!(sorted(tree.cancel(ctx).woken), vec![1, 2]);
    assert!(tree.cancel(ctx).woken.is_empty());
    assert!(tree.cancel(child).woken.is_empty());
    assert!(tree.cancel(ctx).woken.is_empty());
    assert!(tree.is_cancelled(ctx));
    assert!(tree.is_cancelled(child));
    assert_eq!(tree.len(), 2);
}

#[test]
fn cancelling_the_parent_cancels_all_descendants() {
    let (mut tree, parent, c1, c2, c3, g1) = family();
    tree.cancel(parent);
    assert!(tree.is_cancelled(parent));
    assert!(tree.is_cancelled(c1));
    assert!(tree.is_cancelled(c2));
    assert!(tree.is_cancelled(c3));
    assert!(tree.is_cancelled(g1));
}

#[test]
fn cancelling_a_child_spares_its_siblings() {
    let (mut tree, parent, c1, c2, c3, g1) = family();
    tree.cancel(c1);
    assert!(tree.is_cancelled(c1));
    assert!(tree.is_cancelled(g1));
    assert!(!tree.is_cancelled(c2));
    assert!(!tree.is_cancelled(c3));
    assert!(!tree.is_cancelled(parent));
}

#[test]
fn every_awaiter_in_the_subtree_is_woken_once() {
    let (mut tree, parent, c1, c2, c3, g1) = family();
    suspend(&mut tree, parent, 10);
    suspend(&mut tree, c1, 11);
    suspend(&mut tree, c1, 12);
    suspend(&mut tree, c2, 13);
    suspend(&mut tree, c3, 14);
    suspend(&mut tree, g1, 15);
    suspend(&mut tree, g1, 15);
    assert_eq!(sorted(tree.cancel(c1).woken), vec![11, 12, 15, 15]);
    assert_eq!(sorted(tree.cancel(parent).woken), vec![10, 13, 14]);
    assert!(tree.cancel(parent).woken.is_empty());
}

#[test]
fn a_wait_that_is_polled_again_is_woken_once() {
    let mut tree: ContextTree<u32> = ContextTree::new();
    let ctx = tree.new_context();
    let wait = tree.cancelled(ctx);
    assert_eq!(tree.waiting(ctx), 0);
    assert_eq!(tree.poll(&wait, 7), Poll::Pending);
    assert_eq!(tree.poll(&wait, 7), Poll::Pending);
    assert_eq!(wait.poll(&mut tree, 7), Poll::Pending);
    assert_eq!(tree.waiting(ctx), 1);
    assert_eq!(tree.cancel(ctx).woken, vec![7]);
    assert_eq!(tree.poll(&wait, 7), Poll::Ready);
    assert!(tree.cancel(ctx).woken.is_empty());
}

#[test]
fn a_further_poll_replaces_the_waker_of_its_wait() {
    let mut tree: ContextTree<u32> = ContextTree::new();
    let ctx = tree.new_context();
    let first = tree.cancelled(ctx);
    let second = tree.cancelled(ctx);
    assert_eq!(tree.poll(&first, 1), Poll::Pending);
    assert_eq!(tree.poll(&second, 2), Poll::Pending);
    assert_eq!(tree.poll(&first, 3), Poll::Pending);
    assert_eq!(tree.poll(&second, 2), Poll::Pending);
    assert_eq!(tree.waiting(ctx), 2);
    assert_eq!(tree.cancel(ctx).woken, vec![3, 2]);
}

#[test]
fn two_waits_with_the_same_waker_are_two_waits() {
    let mut tree: ContextTree<u32> = ContextTree::new();
    let ctx = tree.new_context();
    suspend(&mut tree, ctx, 5);
    suspend(&mut tree, ctx, 5);
    assert_eq!(tree.waiting(ctx), 2);
    assert_eq!(tree.cancel(ctx).woken, vec![5, 5]);
}

#[test]
fn a_wait_that_is_given_up_takes_its_waker_back() {
    let mut tree: ContextTree<u32> = ContextTree::new();
    let ctx = tree.new_context();
    let first = suspend(&mut tree, ctx, 1);
    let second = suspend(&mut tree, ctx, 2);
    let third = suspend(&mut tree, ctx, 3);
    let never_polled = tree.cancelled(ctx);
    assert_eq!(tree.waiting(ctx), 3);
    tree.give_up(second);
    tree.give_up(never_polled);
    assert_eq!(tree.waiting(ctx), 2);
    assert_eq!(tree.poll(&first, 4), Poll::Pending);
    assert_eq!(tree.cancel(ctx).woken, vec![4, 3]);
    tree.give_up(third);
    tree.give_up(first);
    assert_eq!(tree.waiting(ctx), 0);
}

#[test]
fn a_loop_that_waits_anew_at_every_turn_leaves_one_waker() {
    let mut tree: ContextTree<u32> = ContextTree::new();
    let root = tree.new_context();
    for _turn in 0..100 {
        let wait = suspend(&mut tree, root, 9);
        tree.give_up(wait);
    }
    let last = suspend(&mut tree, root, 9);
    assert_eq!(tree.waiting(root), 1);
    assert_eq!(last.id(), 100);
    assert_eq!(tree.cancel(root).woken, vec![9]);
}

#[test]
fn waits_are_numbered_as_they_are_made() {
    let mut tree: ContextTree<u32> = ContextTree::new();
    let a = tree.new_context();
    let b = tree.new_context();
    let first = tree.cancelled(a);
    let second = tree.cancelled(b);
    let third = tree.cancelled(a);
    assert_eq!((first.id(), second.id(), third.id()), (0, 1, 2));
    assert_eq!(first.ctx(), a);
    assert_eq!(second.ctx(), b);
}

#[test]
fn a_cancellation_lists_what_it_cancelled() {
    let (mut tree, parent, c1, c2, c3, g1) = family();
    let done = tree.cancel(c1);
    assert_eq!(done.cancelled, vec![c1.id(), g1.id()]);
    let done = tree.cancel(c1);
    assert!(done.cancelled.is_empty());
    assert!(done.woken.is_empty());
    let done = tree.cancel(parent);
    assert_eq!(done.cancelled[0], parent.id());
    assert_eq!(sorted_ids(done.cancelled), vec![parent.id(), c2.id(), c3.id()]);
    let late = tree.new_child(parent);
    assert!(tree.cancel(late).cancelled.is_empty());
}

#[test]
fn a_timer_that_runs_out_lists_what_it_cancelled() {
    let mut tree: ContextTree<u32> = ContextTree::new();
    let (ctx, timer) = tree.with_timeout(Duration::from_millis(5));
    let child = tree.new_child(ctx);
    assert!(tree.timer_done(&timer, TimerOutcome::Cancelled).cancelled.is_empty());
    let done = tree.timer_done(&timer, TimerOutcome::Elapsed);
    assert_eq!(done.cancelled, vec![ctx.id(), child.id()]);
    assert!(tree.timer_done(&timer, TimerOutcome::Elapsed).cancelled.is_empty());
}

#[test]
fn a_parent_records_its_alive_children() {
    let (mut tree, parent, c1, c2, c3, g1) = family();
    assert!(tree.has_child(parent, c1));
    assert!(tree.has_child(parent, c2));
    assert!(tree.has_child(parent, c3));
    assert!(!tree.has_child(parent, g1));
    assert!(tree.has_child(c1, g1));
    assert!(!tree.has_child(c1, c2));
    assert!(!tree.has_child(c1, parent));
    tree.cancel(c2);
    assert!(tree.has_child(parent, c1));
    assert!(!tree.has_child(parent, c2));
    assert!(tree.has_child(parent, c3));
    tree.cancel(g1);
    assert!(!tree.has_child(c1, g1));
    tree.cancel(parent);
    assert!(!tree.has_child(parent, c1));
    assert!(!tree.has_child(parent, c3));
}

#[test]
fn the_wakers_of_a_context_are_counted_until_it_is_cancelled() {
    let (mut tree, parent, c1, _c2, _c3, _g1) = family();
    assert_eq!(tree.waiting(c1), 0);
    suspend(&mut tree, c1, 1);
    suspend(&mut tree, c1, 2);
    assert_eq!(tree.waiting(c1), 2);
    assert_eq!(tree.waiting(parent), 0);
    tree.cancel(parent);
    assert_eq!(tree.waiting(c1), 0);
    assert_eq!(first_poll(&mut tree, c1, 3), Poll::Ready);
    assert_eq!(tree.waiting(c1), 0);
}

#[test]
fn a_cancelled_child_is_not_processed_again_with_its_parent() {
    let (mut tree, parent, c1, c2, _c3, g1) = family();
    suspend(&mut tree, c1, 1);
    suspend(&mut tree, g1, 2);
    suspend(&mut tree, c2, 3);
    assert_eq!(sorted(tree.cancel(c1).woken), vec![1, 2]);
    assert_eq!(tree.cancel(parent).woken, vec![3]);
    assert!(tree.is_cancelled(c1));
    assert!(tree.is_cancelled(c2));
    assert!(tree.is_cancelled(parent));
}

#[test]
fn a_child_of_a_cancelled_parent_is_born_cancelled() {
    let mut tree: ContextTree<u32> = ContextTree::new();
    let parent = tree.new_context();
    tree.cancel(parent);
    let child = tree.new_child(parent);
    assert!(tree.is_cancelled(child));
    assert_eq!(tree.parent_id(child), Some(parent.id()));
    assert_eq!(first_poll(&mut tree, child, 1), Poll::Ready);
    assert!(tree.cancel(child).woken.is_empty());
    let grandchild = tree.new_child(child);
    assert!(tree.is_cancelled(grandchild));
}

#[test]
fn a_child_of_an_alive_parent_is_alive_and_cascaded_to() {
    let mut tree: ContextTree<u32> = ContextTree::new();
    let parent = tree.new_context();
    let early = tree.new_child(parent);
    tree.cancel(early);
    let late = tree.new_child(parent);
    assert!(!tree.is_cancelled(late));
    suspend(&mut tree, late, 7);
    assert_eq!(tree.cancel(parent).woken, vec![7]);
    assert!(tree.is_cancelled(late));
}

#[test]
fn roots_do_not_touch_each_other() {
    let mut tree: ContextTree<u32> = ContextTree::new();
    let a = tree.new_context();
    let b = tree.new_context();
    let below_b = tree.new_child(b);
    suspend(&mut tree, b, 1);
    assert!(tree.cancel(a).woken.is_empty());
    assert!(tree.is_cancelled(a));
    assert!(!tree.is_cancelled(b));
    assert!(!tree.is_cancelled(below_b));
}

#[test]
fn a_timed_root_comes_with_its_timer() {
    let mut tree: ContextTree<u32> = ContextTree::new();
    let (ctx, timer) = tree.with_timeout(Duration::from_millis(200));
    assert_eq!(timer.ctx, ctx);
    assert_eq!(timer.duration, Duration::from_millis(200));
    assert_eq!(tree.parent_id(ctx), None);
    assert!(!tree.is_cancelled(ctx));
}

#[test]
fn explicit_cancel_wins_the_race_against_the_timer() {
    let mut tree: ContextTree<u32> = ContextTree::new();
    let (ctx, timer) = tree.with_timeout(Duration::from_millis(200));
    suspend(&mut tree, ctx, 1);
    assert_eq!(tree.cancel(ctx).woken, vec![1]);
    assert!(tree.is_cancelled(ctx));
    assert!(tree.timer_done(&timer, TimerOutcome::Cancelled).woken.is_empty());
    assert!(tree.timer_done(&timer, TimerOutcome::Elapsed).woken.is_empty());
    assert!(tree.is_cancelled(ctx));
    assert_eq!(tree.len(), 1);
}

#[test]
fn a_timed_context_is_cancelled_when_its_time_has_passed_and_not_before() {
    let mut tree: ContextTree<u32> = ContextTree::new();
    let other = tree.new_context();
    let (ctx, timer) = tree.with_timeout(Duration::from_millis(200));
    let child = tree.new_child(ctx);
    suspend(&mut tree, ctx, 1);
    suspend(&mut tree, child, 2);
    tree.cancel(other);
    assert!(!tree.is_cancelled(ctx));
    suspend(&mut tree, ctx, 3);
    assert_eq!(sorted(tree.timer_done(&timer, TimerOutcome::Elapsed).woken), vec![1, 2, 3]);
    assert!(tree.is_cancelled(ctx));
    assert!(tree.is_cancelled(child));
    assert_eq!(first_poll(&mut tree, ctx, 4), Poll::Ready);
}

#[test]
fn a_timed_child_of_an_alive_parent_gets_a_timer() {
    let mut tree: ContextTree<u32> = ContextTree::new();
    let parent = tree.new_context();
    let (child, timer) = tree.new_child_with_timeout(parent, Duration::from_secs(3));
    let timer = timer.unwrap();
    assert_eq!(timer.ctx, child);
    assert_eq!(timer.duration, Duration::from_secs(3));
    assert!(!tree.is_cancelled(child));
    assert_eq!(tree.parent_id(child), Some(parent.id()));
    assert!(tree.timer_done(&timer, TimerOutcome::Elapsed).woken.is_empty());
    assert!(tree.is_cancelled(child));
    assert!(!tree.is_cancelled(parent));
    assert!(tree.cancel(parent).woken.is_empty());
}

#[test]
fn a_timed_child_of_a_cancelled_parent_gets_no_timer() {
    let mut tree: ContextTree<u32> = ContextTree::new();
    let parent = tree.new_context();
    tree.cancel(parent);
    let (child, timer) = tree.new_child_with_timeout(parent, Duration::from_secs(3));
    assert!(timer.is_none());
    assert!(tree.is_cancelled(child));
}

#[test]
fn a_timer_that_elapses_under_a_cancelled_parent_does_nothing() {
    let mut tree: ContextTree<u32> = ContextTree::new();
    let parent = tree.new_context();
    let (child, timer) = tree.new_child_with_timeout(parent, Duration::from_secs(3));
    let timer = timer.unwrap();
    suspend(&mut tree, child, 5);
    assert_eq!(tree.cancel(parent).woken, vec![5]);
    assert!(tree.timer_done(&timer, TimerOutcome::Elapsed).woken.is_empty());
    assert!(tree.is_cancelled(child));
}

#[test]
fn a_deep_chain_is_cancelled_from_the_top() {
    let mut tree: ContextTree<u32> = ContextTree::new();
    let root = tree.new_context();
    let mut chain = vec![root];
    for depth in 0..50u32 {
        let last = *chain.last().unwrap();
        let next = tree.new_child(last);
        suspend(&mut tree, next, depth);
        chain.push(next);
    }
    let woken = sorted(tree.cancel(chain[10]).woken);
    assert_eq!(woken, (9..50).collect::<Vec<u32>>());
    for (depth, ctx) in chain.iter().enumerate() {
        assert_eq!(tree.is_cancelled(*ctx), depth >= 10);
    }
    assert_eq!(sorted(tree.cancel(root).woken), (0..9).collect::<Vec<u32>>());
}

#[test]
fn a_context_outside_the_tree_is_not_contained() {
    let mut small: ContextTree<u32> = ContextTree::new();
    let mut large: ContextTree<u32> = ContextTree::new();
    small.new_context();
    large.new_context();
    let second = large.new_context();
    assert!(large.contains(second));
    assert!(!small.contains(second));
}

#[test]
fn a_handle_is_found_by_its_id() {
    let (tree, parent, _c1, _c2, _c3, g1) = family();
    assert_eq!(tree.context(0), Some(parent));
    assert_eq!(tree.context(4), Some(g1));
    assert_eq!(tree.context(5), None);
    assert_eq!(tree.waits_made(), 0);
}

#[test]
fn a_wait_for_a_cancelled_context_leaves_nothing_behind() {
    let mut tree: ContextTree<u32> = ContextTree::new();
    let ctx = tree.new_context();
    tree.cancel(ctx);
    let wait = tree.cancelled(ctx);
    assert_eq!(tree.waits_made(), 1);
    assert_eq!(tree.poll(&wait, 1), Poll::Ready);
    assert_eq!(tree.waiting(ctx), 0);
    tree.give_up(wait);
    assert_eq!(tree.waiting(ctx), 0);
    assert!(tree.cancel(ctx).woken.is_empty());
}

#[test]
fn giving_up_one_wait_leaves_the_others_of_the_subtree() {
    let (mut tree, parent, c1, _c2, _c3, g1) = family();
    let on_parent = suspend(&mut tree, parent, 1);
    let on_child = suspend(&mut tree, c1, 2);
    suspend(&mut tree, g1, 3);
    tree.give_up(on_child);
    assert_eq!(sorted(tree.cancel(c1).woken), vec![3]);
    tree.give_up(on_parent);
    assert!(tree.cancel(parent).woken.is_empty());
}
