//! What holds of every forest of contexts, whatever was done to it.

use crate::util::context::lemmas::{
    lemma_ancestor_le, lemma_ancestor_trans, lemma_books_frame, lemma_empty_to_multiset,
    lemma_reached_push, lemma_with_waker_ok, lemma_without_wait_ok,
};
use crate::util::context::model::{
    alive_at, ancestor_or_self, books_ok, cancelled_at, child_of, reached_in, records, ContextOp,
    ContextTreeView,
};
use vstd::multiset::Multiset;
use vstd::prelude::*;

verus! {

impl<W> ContextTreeView<W> {
    /// The empty forest is well formed.
    pub proof fn law_empty_wf()
        ensures
            Self::empty().wf(),
    {
    }

    /// Creating a root context keeps the forest well formed.
    pub proof fn law_new_context_wf(self)
        requires
            self.wf(),
            self.len() < usize::MAX,
        ensures
            self.new_context().wf(),
    {
        let after = self.new_context();
        let c = self.len() as usize;
        assert forall|x: usize, p: usize| #[trigger]
            child_of(after.parents, x, p) implies p < x by {
            assert(child_of(self.parents, x, p));
        }
        assert forall|n: usize| n < after.parents.len() implies #[trigger] books_ok(
            after.parents,
            after.statuses,
            n,
        ) by {
            if n != c {
                assert(books_ok(self.parents, self.statuses, n));
                lemma_books_frame(self.parents, self.statuses, after.parents, after.statuses, n);
            } else {
                assert forall|x: usize| !child_of(after.parents, x, c) by {
                    if child_of(after.parents, x, c) {
                        assert(c < x);
                    }
                }
            }
        }
        assert forall|n: int| 0 <= n < after.statuses.len() implies (
        #[trigger] after.statuses[n]).waits_ok(after.next_wait) by {
            if n < self.statuses.len() {
                assert(self.statuses[n].waits_ok(self.next_wait));
            }
        }
        assert forall|n: usize| n < after.parents.len() implies (#[trigger] cancelled_at(
            after.statuses,
            n,
        ) <==> reached_in(after.parents, after.requested, n)) by {
            lemma_reached_push(self.parents, self.requested, None, n);
            if n != c {
                assert(cancelled_at(self.statuses, n) <==> reached_in(
                    self.parents,
                    self.requested,
                    n,
                ));
            }
        }
    }

    /// Deriving a child keeps the forest well formed.
    pub proof fn law_new_child_wf(self, parent: usize)
        requires
            self.wf(),
            self.contains(parent),
            self.len() < usize::MAX,
        ensures
            self.new_child(parent).wf(),
    {
        let after = self.new_child(parent);
        let c = self.len() as usize;
        assert forall|x: usize, p: usize| #[trigger]
            child_of(after.parents, x, p) implies p < x by {
            if x != c {
                assert(child_of(self.parents, x, p));
            }
        }
        assert forall|x: usize| !child_of(after.parents, x, c) by {
            if child_of(after.parents, x, c) {
                assert(c < x);
            }
        }
        assert(child_of(after.parents, c, parent));
        assert(books_ok(self.parents, self.statuses, parent));
        assert forall|n: usize| n < after.parents.len() implies #[trigger] books_ok(
            after.parents,
            after.statuses,
            n,
        ) by {
            if n == c {
            } else if n == parent {
                if alive_at(self.statuses, parent) {
                    assert(alive_at(after.statuses, parent));
                    assert forall|x: usize|
                        #![trigger records(after.statuses, n, x)]
                        #![trigger child_of(after.parents, x, n)]
                        records(after.statuses, n, x) <==> (child_of(after.parents, x, n)
                            && alive_at(after.statuses, x)) by {
                        assert(records(self.statuses, n, x) <==> (child_of(self.parents, x, n)
                            && alive_at(self.statuses, x)));
                        if x != c {
                            assert(child_of(after.parents, x, n) == child_of(self.parents, x, n));
                        }
                    }
                } else {
                    assert forall|x: usize| #[trigger]
                        child_of(after.parents, x, n) implies cancelled_at(after.statuses, x) by {
                        if x != c {
                            assert(child_of(self.parents, x, n));
                        }
                    }
                }
            } else {
                assert(books_ok(self.parents, self.statuses, n));
                assert(!child_of(after.parents, c, n));
                lemma_books_frame(self.parents, self.statuses, after.parents, after.statuses, n);
            }
        }
        assert forall|n: int| 0 <= n < after.statuses.len() implies (
        #[trigger] after.statuses[n]).waits_ok(after.next_wait) by {
            if n < self.statuses.len() {
                assert(self.statuses[n].waits_ok(self.next_wait));
            }
        }
        assert forall|n: usize| n < after.parents.len() implies (#[trigger] cancelled_at(
            after.statuses,
            n,
        ) <==> reached_in(after.parents, after.requested, n)) by {
            lemma_reached_push(self.parents, self.requested, Some(parent), n);
            if n != c {
                assert(cancelled_at(self.statuses, n) <==> reached_in(
                    self.parents,
                    self.requested,
                    n,
                ));
            } else {
                assert(cancelled_at(self.statuses, parent) <==> reached_in(
                    self.parents,
                    self.requested,
                    parent,
                ));
            }
        }
    }

    /// Changing what waits for a context, and nothing else of it, keeps the
    /// forest well formed.
    proof fn lemma_waits_changed_wf(self, after: Self, ctx: usize)
        requires
            self.wf(),
            self.contains(ctx),
            after.parents == self.parents,
            after.requested == self.requested,
            after.next_wait == self.next_wait,
            after.statuses == self.statuses.update(ctx as int, after.statuses[ctx as int]),
            after.statuses[ctx as int] is Alive <==> self.statuses[ctx as int] is Alive,
            after.statuses[ctx as int].children() == self.statuses[ctx as int].children(),
            after.statuses[ctx as int].waits_ok(self.next_wait),
        ensures
            after.wf(),
    {
        assert forall|n: usize| n < after.parents.len() implies #[trigger] books_ok(
            after.parents,
            after.statuses,
            n,
        ) by {
            assert(books_ok(self.parents, self.statuses, n));
            if n != ctx {
                lemma_books_frame(self.parents, self.statuses, after.parents, after.statuses, n);
            } else if alive_at(after.statuses, n) {
                assert forall|x: usize|
                    #![trigger records(after.statuses, n, x)]
                    #![trigger child_of(after.parents, x, n)]
                    records(after.statuses, n, x) <==> (child_of(after.parents, x, n) && alive_at(
                        after.statuses,
                        x,
                    )) by {
                    assert(records(self.statuses, n, x) <==> (child_of(self.parents, x, n)
                        && alive_at(self.statuses, x)));
                }
            } else {
                assert forall|x: usize| #[trigger]
                    child_of(after.parents, x, n) implies cancelled_at(after.statuses, x) by {
                    assert(cancelled_at(self.statuses, x));
                }
            }
        }
        assert forall|n: int| 0 <= n < after.statuses.len() implies (
        #[trigger] after.statuses[n]).waits_ok(after.next_wait) by {
            if n != ctx {
                assert(self.statuses[n].waits_ok(self.next_wait));
            }
        }
        assert forall|n: usize| n < after.parents.len() implies (#[trigger] cancelled_at(
            after.statuses,
            n,
        ) <==> reached_in(after.parents, after.requested, n)) by {
            assert(cancelled_at(self.statuses, n) <==> reached_in(
                self.parents,
                self.requested,
                n,
            ));
        }
    }

    /// Making a wait keeps the forest well formed.
    pub proof fn law_new_wait_wf(self)
        requires
            self.wf(),
            self.next_wait < usize::MAX,
        ensures
            self.new_wait().wf(),
    {
        let after = self.new_wait();
        assert forall|n: int| 0 <= n < after.statuses.len() implies (
        #[trigger] after.statuses[n]).waits_ok(after.next_wait) by {
            assert(self.statuses[n].waits_ok(self.next_wait));
        }
        assert forall|n: usize| n < after.parents.len() implies (#[trigger] cancelled_at(
            after.statuses,
            n,
        ) <==> reached_in(after.parents, after.requested, n)) by {
            assert(cancelled_at(self.statuses, n) <==> reached_in(
                self.parents,
                self.requested,
                n,
            ));
        }
    }

    /// Polling a wait keeps the forest well formed.
    pub proof fn law_register_wf(self, ctx: usize, wait: usize, waker: W)
        requires
            self.wf(),
            self.contains(ctx),
            wait < self.next_wait,
        ensures
            self.register(ctx, wait, waker).wf(),
    {
        let after = self.register(ctx, wait, waker);
        assert(self.statuses[ctx as int].waits_ok(self.next_wait));
        lemma_with_waker_ok(self.statuses[ctx as int], wait, waker, self.next_wait);
        assert(after.statuses =~= self.statuses.update(ctx as int, after.statuses[ctx as int]));
        self.lemma_waits_changed_wf(after, ctx);
    }

    /// Giving up a wait keeps the forest well formed.
    pub proof fn law_unregister_wf(self, ctx: usize, wait: usize)
        requires
            self.wf(),
            self.contains(ctx),
        ensures
            self.unregister(ctx, wait).wf(),
    {
        let after = self.unregister(ctx, wait);
        assert(self.statuses[ctx as int].waits_ok(self.next_wait));
        lemma_without_wait_ok(self.statuses[ctx as int], wait, self.next_wait);
        assert(after.statuses =~= self.statuses.update(ctx as int, after.statuses[ctx as int]));
        self.lemma_waits_changed_wf(after, ctx);
    }

    /// Cancelling a context keeps the forest well formed.
    pub proof fn law_cancel_wf(self, ctx: usize)
        requires
            self.wf(),
            self.contains(ctx),
        ensures
            self.cancel(ctx).wf(),
    {
        let after = self.cancel(ctx);
        assert forall|n: usize| n < after.parents.len() implies #[trigger] books_ok(
            after.parents,
            after.statuses,
            n,
        ) by {
            assert(books_ok(self.parents, self.statuses, n));
            self.lemma_cancel_keeps_books(ctx, true, n);
        }
        assert forall|n: int| 0 <= n < after.statuses.len() implies (
        #[trigger] after.statuses[n]).waits_ok(after.next_wait) by {
            if n < self.statuses.len() {
                assert(self.statuses[n].waits_ok(self.next_wait));
            }
        }
        assert forall|n: usize| n < after.parents.len() implies (#[trigger] cancelled_at(
            after.statuses,
            n,
        ) <==> reached_in(after.parents, after.requested, n)) by {
            assert(cancelled_at(self.statuses, n) <==> reached_in(
                self.parents,
                self.requested,
                n,
            ));
            assert(cancelled_at(after.statuses, n) <==> (cancelled_at(self.statuses, n)
                || self.in_subtree(ctx, n)));
            if reached_in(self.parents, self.requested, n) {
                let a = choose|a: usize|
                    self.requested.contains(a) && ancestor_or_self(self.parents, a, n);
                assert(after.requested.contains(a) && ancestor_or_self(after.parents, a, n));
            }
            if self.in_subtree(ctx, n) {
                assert(after.requested.contains(ctx) && ancestor_or_self(after.parents, ctx, n));
            }
            if reached_in(after.parents, after.requested, n) {
                let a = choose|a: usize|
                    after.requested.contains(a) && ancestor_or_self(after.parents, a, n);
                if a != ctx {
                    assert(self.requested.contains(a) && ancestor_or_self(self.parents, a, n));
                }
            }
        }
    }

}

impl<W> ContextTreeView<W> {
    /// Whatever is done to a well-formed forest leaves it well formed.
    pub proof fn law_step_wf(self, op: ContextOp<W>)
        requires
            self.wf(),
            self.enabled(op),
        ensures
            self.step(op).wf(),
    {
        match op {
            ContextOp::NewContext => self.law_new_context_wf(),
            ContextOp::NewChild { parent } => self.law_new_child_wf(parent),
            ContextOp::NewWait => self.law_new_wait_wf(),
            ContextOp::Poll { ctx, wait, waker } => self.law_register_wf(ctx, wait, waker),
            ContextOp::GiveUp { ctx, wait } => self.law_unregister_wf(ctx, wait),
            ContextOp::Cancel { ctx } => self.law_cancel_wf(ctx),
            ContextOp::TimerElapsed { ctx } => self.law_cancel_wf(ctx),
        }
    }

    /// Every forest that operations make of the empty one is well formed.
    pub proof fn law_run_wf(ops: Seq<ContextOp<W>>)
        requires
            Self::valid(ops),
        ensures
            Self::run(ops).wf(),
        decreases ops.len(),
    {
        if ops.len() > 0 {
            Self::law_run_wf(ops.drop_last());
            Self::run(ops.drop_last()).law_step_wf(ops.last());
        }
    }

    /// The history of a forest holds exactly the contexts that a caller
    /// cancelled or whose timer ran out.
    pub proof fn law_run_requested(ops: Seq<ContextOp<W>>, ctx: usize)
        requires
            Self::valid(ops),
        ensures
            Self::run(ops).requested.contains(ctx) <==> exists|i: int|
                0 <= i < ops.len() && (#[trigger] ops[i]).asks_cancel(ctx),
        decreases ops.len(),
    {
        if ops.len() > 0 {
            let before = ops.drop_last();
            Self::law_run_requested(before, ctx);
            if Self::run(ops).requested.contains(ctx) {
                if Self::run(before).requested.contains(ctx) {
                    let i = choose|i: int|
                        0 <= i < before.len() && (#[trigger] before[i]).asks_cancel(ctx);
                    assert(ops[i].asks_cancel(ctx));
                } else {
                    assert(ops[ops.len() - 1].asks_cancel(ctx));
                }
            }
            if exists|i: int| 0 <= i < ops.len() && (#[trigger] ops[i]).asks_cancel(ctx) {
                let i = choose|i: int| 0 <= i < ops.len() && (#[trigger] ops[i]).asks_cancel(ctx);
                if i < before.len() {
                    assert(before[i].asks_cancel(ctx));
                }
            }
        }
    }

    /// A context is cancelled if and only if a caller cancelled it or one of
    /// its ancestors, or the timer of one of them ran out; so the wait for
    /// its cancellation is over exactly then.
    pub proof fn law_cancelled_iff_asked(ops: Seq<ContextOp<W>>, ctx: usize)
        requires
            Self::valid(ops),
            Self::run(ops).contains(ctx),
        ensures
            Self::run(ops).is_cancelled(ctx) <==> exists|i: int, a: usize|
                0 <= i < ops.len() && #[trigger] ops[i].asks_cancel(a) && Self::run(ops).in_subtree(
                    a,
                    ctx,
                ),
    {
        let end = Self::run(ops);
        Self::law_run_wf(ops);
        assert(cancelled_at(end.statuses, ctx) <==> reached_in(end.parents, end.requested, ctx));
        if end.is_cancelled(ctx) {
            let a = choose|a: usize|
                end.requested.contains(a) && ancestor_or_self(end.parents, a, ctx);
            Self::law_run_requested(ops, a);
            let i = choose|i: int| 0 <= i < ops.len() && (#[trigger] ops[i]).asks_cancel(a);
            assert(ops[i].asks_cancel(a) && end.in_subtree(a, ctx));
        }
        if exists|i: int, a: usize|
            0 <= i < ops.len() && #[trigger] ops[i].asks_cancel(a) && end.in_subtree(a, ctx) {
            let (i, a) = choose|i: int, a: usize|
                0 <= i < ops.len() && #[trigger] ops[i].asks_cancel(a) && end.in_subtree(a, ctx);
            Self::law_run_requested(ops, a);
            assert(end.requested.contains(a) && ancestor_or_self(end.parents, a, ctx));
        }
    }

    /// A context stays alive as long as nobody cancels it or one of its
    /// ancestors, and the timer of none of them runs out.
    pub proof fn law_alive_until_asked(ops: Seq<ContextOp<W>>, ctx: usize)
        requires
            Self::valid(ops),
            Self::run(ops).contains(ctx),
            forall|i: int, a: usize|
                0 <= i < ops.len() && #[trigger] ops[i].asks_cancel(a) ==> !Self::run(
                    ops,
                ).in_subtree(a, ctx),
        ensures
            Self::run(ops).is_alive(ctx),
    {
        Self::law_cancelled_iff_asked(ops, ctx);
        Self::law_run_wf(ops);
    }

    /// Cancelled is for good: nothing that is done to a forest brings a
    /// cancelled context back.
    pub proof fn law_cancelled_forever(self, op: ContextOp<W>, ctx: usize)
        requires
            self.wf(),
            self.enabled(op),
            self.is_cancelled(ctx),
        ensures
            self.step(op).is_cancelled(ctx),
    {
    }

    /// Cancelling a context cancels its subtree and nothing else.
    pub proof fn law_cascade(self, ctx: usize, n: usize)
        requires
            self.wf(),
            self.contains(ctx),
            self.contains(n),
        ensures
            self.cancel(ctx).is_cancelled(n) <==> (self.is_cancelled(n) || self.in_subtree(ctx, n)),
            self.in_subtree(ctx, n) || self.cancel(ctx).wakers(n) == self.wakers(n),
    {
    }

    /// Cancelling a cancelled context changes no status and wakes nobody.
    pub proof fn law_cancel_idempotent(self, ctx: usize)
        requires
            self.wf(),
            self.is_cancelled(ctx),
        ensures
            self.cancel(ctx).statuses == self.statuses,
            self.cancel(ctx).parents == self.parents,
            self.woken(ctx) == Multiset::<W>::empty(),
            self.requested.contains(ctx) ==> self.cancel(ctx) == self,
    {
        crate::util::context::cascade::lemma_cancel_again(self, ctx, true);
        self.lemma_woken_nobody(ctx, self.len());
        if self.requested.contains(ctx) {
            assert(self.requested.insert(ctx) =~= self.requested);
        }
    }

    /// On the contexts of the subtree of a cancelled context nobody is
    /// suspended.
    proof fn lemma_woken_nobody(self, ctx: usize, k: nat)
        requires
            self.wf(),
            self.is_cancelled(ctx),
            k <= self.len(),
        ensures
            self.subtree_pending_upto(ctx, k) == Multiset::<W>::empty(),
        decreases k,
    {
        if k > 0 {
            self.lemma_woken_nobody(ctx, (k - 1) as nat);
            let last = (k - 1) as usize;
            if self.in_subtree(ctx, last) {
                assert forall|m: usize|
                    self.contains(m) && self.in_subtree(ctx, m) implies self.node_ok(m) by {
                    assert(books_ok(self.parents, self.statuses, m));
                }
                self.lemma_subtree_cancelled(ctx, last);
                lemma_empty_to_multiset::<W>();
                assert(self.subtree_pending_upto(ctx, k) =~= Multiset::<W>::empty()) by {
                    broadcast use vstd::multiset::group_multiset_axioms;

                }
            }
        }
    }

    /// Cancelling a child takes it out of the records of its parent.
    pub proof fn law_child_unlinked(self, child: usize, parent: usize)
        requires
            self.wf(),
            self.is_child_of(child, parent),
            self.is_alive(parent),
        ensures
            self.cancel(child).is_alive(parent),
            self.cancel(child).children(parent) == self.children(parent).remove(child),
            !self.cancel(child).children(parent).contains(child),
            self.cancel(child).wakers(parent) == self.wakers(parent),
    {
        assert(parent < child);
        if self.in_subtree(child, parent) {
            lemma_ancestor_le(self.parents, child, parent);
        }
        assert(books_ok(self.parents, self.statuses, parent));
        if !self.is_alive(child) {
            assert(!records(self.statuses, parent, child));
            assert(self.children(parent).remove(child) =~= self.children(parent));
        }
    }

    /// Cancelling a context of a subtree first and the root of the subtree
    /// afterwards wakes, all in all, whom cancelling the root alone would
    /// have woken: nobody twice, nobody never.
    pub proof fn law_no_double_wake(self, root: usize, ctx: usize)
        requires
            self.wf(),
            self.contains(root),
            self.in_subtree(root, ctx),
        ensures
            self.woken(ctx).add(self.cancel(ctx).woken(root)) == self.woken(root),
    {
        self.lemma_wake_split(root, ctx, self.len());
    }

    /// The wakers of a subtree are those of a subtree within it and those
    /// that are left when the inner one is cancelled.
    proof fn lemma_wake_split(self, root: usize, ctx: usize, k: nat)
        requires
            self.wf(),
            self.contains(root),
            self.in_subtree(root, ctx),
            k <= self.len(),
        ensures
            self.subtree_pending_upto(ctx, k).add(self.cancel(ctx).subtree_pending_upto(root, k))
                == self.subtree_pending_upto(root, k),
        decreases k,
    {
        broadcast use vstd::multiset::group_multiset_axioms;

        let after = self.cancel(ctx);
        if k > 0 {
            self.lemma_wake_split(root, ctx, (k - 1) as nat);
            let last = (k - 1) as usize;
            lemma_empty_to_multiset::<W>();
            if self.in_subtree(ctx, last) {
                lemma_ancestor_trans(self.parents, root, ctx, last);
                assert(after.wakers(last) == Seq::<W>::empty());
            } else {
                assert(after.wakers(last) == self.wakers(last));
            }
            assert(self.subtree_pending_upto(ctx, k).add(after.subtree_pending_upto(root, k))
                =~= self.subtree_pending_upto(root, k));
        } else {
            assert(self.subtree_pending_upto(ctx, k).add(after.subtree_pending_upto(root, k))
                =~= self.subtree_pending_upto(root, k));
        }
    }

    /// One waker for each wait: after a poll of an alive context the wait is
    /// recorded once, with the waker that it brought, and every other wait
    /// is recorded as before. A wait that was recorded already adds nothing.
    pub proof fn law_one_waker_per_wait(self, ctx: usize, wait: usize, waker: W)
        requires
            self.wf(),
            self.is_alive(ctx),
            wait < self.next_wait,
        ensures
            ({
                let after = self.register(ctx, wait, waker);
                &&& after.waits(ctx).no_duplicates()
                &&& after.waits(ctx).len() == after.wakers(ctx).len()
                &&& after.waits(ctx).contains(wait)
                &&& after.wakers(ctx)[after.waits(ctx).index_of(wait)] == waker
                &&& after.waits(ctx).len() == if self.waits(ctx).contains(wait) {
                    self.waits(ctx).len()
                } else {
                    self.waits(ctx).len() + 1
                }
                &&& forall|i: int|
                    0 <= i < self.waits(ctx).len() ==> after.waits(ctx)[i] == self.waits(ctx)[i]
                        && (self.waits(ctx)[i] != wait ==> after.wakers(ctx)[i] == self.wakers(
                        ctx,
                    )[i])
                &&& after.register(ctx, wait, waker) == after
            }),
    {
        let old = self.statuses[ctx as int];
        let after = self.register(ctx, wait, waker);
        assert(old.waits_ok(self.next_wait));
        lemma_with_waker_ok(old, wait, waker, self.next_wait);
        let new = old.with_waker(wait, waker);
        assert(after.statuses[ctx as int] == new);
        lemma_with_waker_ok(new, wait, waker, self.next_wait);
        assert(new.with_waker(wait, waker).waits() == new.waits());
        assert(new.with_waker(wait, waker).wakers() =~= new.wakers());
        assert(after.register(ctx, wait, waker).statuses =~= after.statuses);
    }

    /// No wakeup is lost, and none is doubled: the waker that a poll has
    /// left on an alive context is among those that the next cancellation of
    /// the context, or of one of its ancestors, hands out; it comes on top
    /// of the others for a wait that was not recorded, and in place of the
    /// waker that the wait had left before for one that was.
    pub proof fn law_no_lost_wakeup(self, ctx: usize, wait: usize, waker: W, a: usize)
        requires
            self.wf(),
            self.is_alive(ctx),
            self.in_subtree(a, ctx),
        ensures
            !self.waits(ctx).contains(wait) ==> self.register(ctx, wait, waker).woken(a)
                == self.woken(a).insert(waker),
            self.waits(ctx).contains(wait) ==> self.register(ctx, wait, waker).woken(a).insert(
                self.wakers(ctx)[self.waits(ctx).index_of(wait)],
            ) == self.woken(a).insert(waker),
            self.register(ctx, wait, waker).woken(a).count(waker) >= 1,
            self.register(ctx, wait, waker).woken(a).len() == self.woken(a).len() + if self.waits(
                ctx,
            ).contains(wait) {
                0int
            } else {
                1int
            },
    {
        broadcast use vstd::multiset::group_multiset_axioms;

        let after = self.register(ctx, wait, waker);
        assert(self.statuses[ctx as int].waits_ok(self.next_wait));
        let given = after.wakers(ctx).to_multiset();
        let taken = self.wakers(ctx).to_multiset();
        assert forall|n: usize| n < self.len() && n != ctx implies after.wakers(n) == self.wakers(
            n,
        ) by {}
        self.lemma_wake_exchanged(after, ctx, a, self.len());
        assert(after.woken(a).add(taken) == self.woken(a).add(given));
        if self.waits(ctx).contains(wait) {
            let i = self.waits(ctx).index_of(wait);
            let before = self.wakers(ctx)[i];
            assert(0 <= i < self.waits(ctx).len());
            vstd::seq_lib::to_multiset_update(self.wakers(ctx), i, waker);
            self.wakers(ctx).to_multiset_ensures();
            assert(self.wakers(ctx).contains(before));
            assert(taken.count(before) > 0);
            assert(given == taken.insert(waker).remove(before));
            assert forall|w: W| after.woken(a).insert(before).count(w) == self.woken(a).insert(
                waker,
            ).count(w) by {
                assert(after.woken(a).add(taken).count(w) == self.woken(a).add(given).count(w));
            }
            assert(after.woken(a).insert(before) =~= self.woken(a).insert(waker));
            assert(after.woken(a).insert(before).len() == self.woken(a).insert(waker).len());
            assert(given.count(waker) >= 1);
        } else {
            vstd::seq_lib::to_multiset_build(self.wakers(ctx), waker);
            assert(given =~= taken.insert(waker));
            assert forall|w: W| after.woken(a).count(w) == self.woken(a).insert(waker).count(
                w,
            ) by {
                assert(after.woken(a).add(taken).count(w) == self.woken(a).add(given).count(w));
            }
            assert(after.woken(a) =~= self.woken(a).insert(waker));
        }
        assert(after.woken(a).count(waker) >= 1) by {
            assert(after.woken(a).add(taken).count(waker) == self.woken(a).add(given).count(
                waker,
            ));
            assert(given.count(waker) >= taken.count(waker));
            if self.waits(ctx).contains(wait) {
                assert(given.count(waker) >= 1);
                after.lemma_woken_holds(ctx, a, waker, self.len());
            }
        }
    }

    /// A wait that is given up takes its waker back: the cancellation of its
    /// context, or of one of its ancestors, hands out what it would have
    /// handed out, less the waker that the wait had left. A wait that had
    /// left none changes nothing.
    pub proof fn law_given_up(self, ctx: usize, wait: usize, a: usize)
        requires
            self.wf(),
            self.is_alive(ctx),
            self.in_subtree(a, ctx),
        ensures
            !self.unregister(ctx, wait).waits(ctx).contains(wait),
            self.waits(ctx).contains(wait) ==> self.unregister(ctx, wait).woken(a).insert(
                self.wakers(ctx)[self.waits(ctx).index_of(wait)],
            ) == self.woken(a),
            !self.waits(ctx).contains(wait) ==> self.unregister(ctx, wait) == self,
    {
        broadcast use vstd::multiset::group_multiset_axioms;

        let after = self.unregister(ctx, wait);
        assert(self.statuses[ctx as int].waits_ok(self.next_wait));
        lemma_without_wait_ok(self.statuses[ctx as int], wait, self.next_wait);
        if self.waits(ctx).contains(wait) {
            let i = self.waits(ctx).index_of(wait);
            let before = self.wakers(ctx)[i];
            assert(0 <= i < self.waits(ctx).len());
            let given = after.wakers(ctx).to_multiset();
            let taken = self.wakers(ctx).to_multiset();
            assert forall|n: usize| n < self.len() && n != ctx implies after.wakers(n)
                == self.wakers(n) by {}
            self.lemma_wake_exchanged(after, ctx, a, self.len());
            vstd::seq_lib::to_multiset_remove(self.wakers(ctx), i);
            self.wakers(ctx).to_multiset_ensures();
            assert(self.wakers(ctx).contains(before));
            assert(given == taken.remove(before));
            assert forall|w: W| after.woken(a).insert(before).count(w) == self.woken(a).count(
                w,
            ) by {
                assert(after.woken(a).add(taken).count(w) == self.woken(a).add(given).count(w));
            }
            assert(after.woken(a).insert(before) =~= self.woken(a));
        } else {
            assert(after.statuses =~= self.statuses);
        }
    }

    /// A cancellation hands out one waker for each wait that is suspended
    /// in the subtree, no more and no fewer.
    pub proof fn law_woken_once_each(self, ctx: usize)
        requires
            self.wf(),
        ensures
            self.woken(ctx).len() == self.subtree_waits_upto(ctx, self.len()),
    {
        self.lemma_woken_counts(ctx, self.len());
    }

    /// The wakers of the first contexts of a subtree are as many as the
    /// waits that are suspended there.
    proof fn lemma_woken_counts(self, ctx: usize, k: nat)
        requires
            self.wf(),
            k <= self.len(),
        ensures
            self.subtree_pending_upto(ctx, k).len() == self.subtree_waits_upto(ctx, k),
        decreases k,
    {
        broadcast use vstd::multiset::group_multiset_axioms;

        if k > 0 {
            self.lemma_woken_counts(ctx, (k - 1) as nat);
            let last = (k - 1) as usize;
            assert(self.statuses[last as int].waits_ok(self.next_wait));
            self.wakers(last).to_multiset_ensures();
            assert(self.wakers(last).len() == self.waits(last).len());
        }
    }

    /// What is suspended on a context of a subtree is among the wakers of
    /// the subtree.
    proof fn lemma_woken_holds(self, ctx: usize, a: usize, waker: W, k: nat)
        requires
            self.in_subtree(a, ctx),
            ctx < k,
        ensures
            self.subtree_pending_upto(a, k).count(waker) >= self.wakers(ctx).to_multiset().count(
                waker,
            ),
        decreases k,
    {
        broadcast use vstd::multiset::group_multiset_axioms;

        if ctx < k - 1 {
            self.lemma_woken_holds(ctx, a, waker, (k - 1) as nat);
        }
    }

    /// Two forests that hold the same wakers everywhere but on one context
    /// of a subtree differ in the wakers of the subtree as they differ in
    /// the wakers of that context.
    proof fn lemma_wake_exchanged(self, after: Self, ctx: usize, a: usize, k: nat)
        requires
            after.parents == self.parents,
            self.in_subtree(a, ctx),
            k <= usize::MAX,
            forall|n: usize| n < k && n != ctx ==> after.wakers(n) == self.wakers(n),
        ensures
            ctx < k ==> after.subtree_pending_upto(a, k).add(self.wakers(ctx).to_multiset())
                == self.subtree_pending_upto(a, k).add(after.wakers(ctx).to_multiset()),
            ctx >= k ==> after.subtree_pending_upto(a, k) == self.subtree_pending_upto(a, k),
        decreases k,
    {
        broadcast use vstd::multiset::group_multiset_axioms;

        if k > 0 {
            let k1 = (k - 1) as nat;
            let last = k1 as usize;
            self.lemma_wake_exchanged(after, ctx, a, k1);
            assert(after.in_subtree(a, last) == self.in_subtree(a, last));
            let mine = if self.in_subtree(a, last) {
                self.wakers(last).to_multiset()
            } else {
                Multiset::empty()
            };
            let theirs = if self.in_subtree(a, last) {
                after.wakers(last).to_multiset()
            } else {
                Multiset::empty()
            };
            assert(self.subtree_pending_upto(a, k) =~= self.subtree_pending_upto(a, k1).add(mine));
            assert(after.subtree_pending_upto(a, k) =~= after.subtree_pending_upto(a, k1).add(
                theirs,
            ));
            if last != ctx {
                assert(after.wakers(last) == self.wakers(last));
                assert(mine == theirs);
                if ctx < k {
                    let l1 = after.subtree_pending_upto(a, k1).add(self.wakers(ctx).to_multiset());
                    let r1 = self.subtree_pending_upto(a, k1).add(after.wakers(ctx).to_multiset());
                    assert(l1 == r1);
                    assert(after.subtree_pending_upto(a, k).add(self.wakers(ctx).to_multiset())
                        =~= l1.add(mine));
                    assert(self.subtree_pending_upto(a, k).add(after.wakers(ctx).to_multiset())
                        =~= r1.add(mine));
                }
            } else {
                assert(after.subtree_pending_upto(a, k).add(self.wakers(ctx).to_multiset())
                    =~= self.subtree_pending_upto(a, k).add(after.wakers(ctx).to_multiset()));
            }
        }
    }

    /// A child is cancelled from its first moment on exactly when its parent
    /// is cancelled: no alive context ever hangs under a cancelled one.
    pub proof fn law_child_follows_parent(self, parent: usize)
        requires
            self.wf(),
            self.contains(parent),
            self.len() < usize::MAX,
        ensures
            self.new_child(parent).is_cancelled(self.len() as usize) <==> self.is_cancelled(parent),
            self.new_child(parent).is_alive(parent) ==> self.new_child(parent).children(
                parent,
            ).contains(self.len() as usize),
    {
    }

    /// In a well-formed forest no alive context has a cancelled ancestor.
    pub proof fn law_alive_under_alive(self, a: usize, n: usize)
        requires
            self.wf(),
            self.contains(n),
            self.in_subtree(a, n),
            self.is_alive(n),
        ensures
            self.is_alive(a),
    {
        lemma_ancestor_le(self.parents, a, n);
        if self.is_cancelled(a) {
            assert forall|m: usize|
                self.contains(m) && self.in_subtree(a, m) implies self.node_ok(m) by {
                assert(books_ok(self.parents, self.statuses, m));
            }
            self.lemma_subtree_cancelled(a, n);
        }
    }
}

} // verus!
