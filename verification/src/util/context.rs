//! Cancellation contexts.
//!
//! A [`ContextTree`] owns every context that was ever created from it; a
//! [`Context`] is a handle that names one of them. A task that waits for the
//! cancellation of a context holds a [`ContextCancelFuture`]; however often
//! it polls, the context keeps one waker for it. Cancelling a context
//! cancels its whole subtree and hands back the wakers of the tasks that were
//! suspended there, one for each wait, for the caller to wake once it has
//! let go of the tree.
//!
//! The tree is a plain value. Sharing it between tasks, and the timers of
//! contexts that cancel themselves, are the caller's business: a timed
//! context comes with a [`ContextTimer`] that says what to wait for, and
//! [`ContextTree::timer_done`] takes the outcome.

mod cascade;
pub mod laws;
mod lemmas;
pub mod model;

use crate::util::context::cascade::{
    cascading, lemma_cancel_again, lemma_cascade_descend, lemma_cascade_end, lemma_cascade_start,
    lemma_cascade_step, lemma_list_end, lemma_list_start, lemma_list_step, listed,
    subtree_books_ok,
};
use crate::util::context::lemmas::lemma_empty_to_multiset;
use crate::util::context::model::{
    books_ok, child_of, records, ContextTreeView, StatusView,
};
use crate::util::poll::Poll;
use std::collections::HashSet;
use std::time::Duration;
use vstd::prelude::*;

verus! {

broadcast use vstd::std_specs::hash::group_hash_axioms;

/// Why a context is being cancelled.
#[derive(Clone, Copy, Debug, PartialEq, Eq, Structural)]
pub enum ContextCancelReason {
    /// A caller asked for it.
    User,
    /// Its parent was cancelled.
    Parent,
    /// Its timer ran out.
    Timeout,
}

/// A handle to one context of a [`ContextTree`].
#[derive(Clone, Copy, Debug, PartialEq, Eq, Structural)]
pub struct Context {
    id: usize,
}

/// The wait of one task for the cancellation of one context.
///
/// A wait is made by [`ContextTree::cancelled`], polled as often as the task
/// is resumed, and handed to [`ContextTree::give_up`] when the task stops
/// waiting before the context is cancelled. It is neither `Clone` nor
/// `Copy`: two tasks that wait have two waits.
#[derive(Debug, PartialEq, Eq)]
pub struct ContextCancelFuture {
    ctx: Context,
    wait: usize,
}

/// What the caller is to wait for on behalf of a timed context: the
/// cancellation of `ctx` or the passing of `duration`, whichever comes first.
#[derive(Clone, Copy, Debug)]
pub struct ContextTimer {
    /// The context that cancels itself.
    pub ctx: Context,
    /// How long after its creation it does so.
    pub duration: Duration,
}

/// What a cancellation did.
#[derive(Debug)]
pub struct Cancellation<W> {
    /// The wakers of the tasks that were suspended on the contexts that
    /// were cancelled, for the caller to wake.
    pub woken: Vec<W>,
    /// The ids of the contexts that were cancelled, each once: first the one
    /// for which cancellation was asked, then those that were alive below
    /// it.
    pub cancelled: Vec<usize>,
}

impl<W> Cancellation<W> {
    /// Whether this is what cancelling `ctx` in the forest `before` does.
    pub open spec fn is_of(&self, before: ContextTreeView<W>, ctx: usize) -> bool {
        &&& self.woken@.to_multiset() == before.woken(ctx)
        &&& self.cancelled@.no_duplicates()
        &&& self.cancelled@.to_set() == before.cancelled_by(ctx)
        &&& before.is_alive(ctx) ==> self.cancelled@.len() > 0 && self.cancelled@[0] == ctx
        &&& before.is_cancelled(ctx) ==> self.is_nothing()
    }

    /// Whether nothing was cancelled and nobody is to be woken.
    pub open spec fn is_nothing(&self) -> bool {
        self.woken@.len() == 0 && self.cancelled@.len() == 0
    }

    /// What no cancellation does.
    pub fn nothing() -> (res: Self)
        ensures
            res.is_nothing(),
    {
        Cancellation { woken: Vec::new(), cancelled: Vec::new() }
    }
}

/// How the wait of a [`ContextTimer`] ended.
#[derive(Clone, Copy, Debug, PartialEq, Eq, Structural)]
pub enum TimerOutcome {
    /// The context was seen cancelled before the time had passed.
    Cancelled,
    /// The time passed first.
    Elapsed,
}

enum ContextInnerStatus<W> {
    Alive { waits: Vec<usize>, wakers: Vec<W>, children: HashSet<usize> },
    Cancelled,
}

struct ContextInner<W> {
    parent: Option<usize>,
    status: ContextInnerStatus<W>,
}

/// A forest of cancellation contexts, generic in the type of the wakers that
/// suspended tasks leave behind.
pub struct ContextTree<W> {
    nodes: Vec<ContextInner<W>>,
    next_wait: usize,
    requested: Ghost<Set<usize>>,
}

impl<W> ContextInnerStatus<W> {
    spec fn view(&self) -> StatusView<W> {
        match self {
            ContextInnerStatus::Alive { waits, wakers, children } => StatusView::Alive {
                waits: waits@,
                wakers: wakers@,
                children: children@,
            },
            ContextInnerStatus::Cancelled => StatusView::Cancelled,
        }
    }
}

/// The children that a context records, in some order.
fn child_list(children: &HashSet<usize>) -> (kids: Vec<usize>)
    ensures
        kids@.to_set() == children@,
        kids@.no_duplicates(),
{
    let mut kids: Vec<usize> = Vec::new();
    for child in it: children.iter()
        invariant
            kids@.len() == it.index(),
            forall|k: int| 0 <= k < it.index() ==> kids@[k] == *it.seq()[k],
            it.seq().unref().to_set() == children@,
            it.seq().unref().no_duplicates(),
            kids@.len() == it.seq().len() ==> kids@ == it.seq().unref(),
    {
        kids.push(*child);
        assert(kids@.len() == it.seq().len() ==> kids@ =~= it.seq().unref());
    }
    kids
}

/// The place of `wait` among `waits`, if it is there.
fn position(waits: &Vec<usize>, wait: usize) -> (found: Option<usize>)
    requires
        waits@.no_duplicates(),
    ensures
        found is Some <==> waits@.contains(wait),
        found matches Some(i) ==> i < waits.len() && i == waits@.index_of(wait),
{
    let mut i: usize = 0;
    while i < waits.len()
        invariant
            i <= waits.len(),
            waits@.no_duplicates(),
            forall|k: int| 0 <= k < i ==> waits@[k] != wait,
        decreases waits.len() - i,
    {
        if waits[i] == wait {
            proof {
                assert(waits@.contains(wait));
                let j = waits@.index_of(wait);
                assert(0 <= j < waits@.len() && waits@[j] == wait);
                if j != i {
                    assert(waits@[j] != waits@[i as int]);
                }
            }
            return Some(i);
        }
        i = i + 1;
    }
    proof {
        if waits@.contains(wait) {
            let j = choose|j: int| 0 <= j < waits@.len() && waits@[j] == wait;
        }
    }
    None
}

impl Context {
    /// The id of the context: unique in its tree, and greater than the id of
    /// every context created before it.
    pub closed spec fn spec_id(&self) -> usize {
        self.id
    }

    /// The id of the context.
    #[verifier::when_used_as_spec(spec_id)]
    pub fn id(&self) -> (id: usize)
        ensures
            id == self.id(),
    {
        self.id
    }
}

impl ContextCancelFuture {
    /// The context that is waited for.
    pub closed spec fn spec_ctx(&self) -> Context {
        self.ctx
    }

    /// The context that is waited for.
    #[verifier::when_used_as_spec(spec_ctx)]
    pub fn ctx(&self) -> (ctx: Context)
        ensures
            ctx == self.ctx(),
    {
        self.ctx
    }

    /// The id of the wait: unique in its tree.
    pub closed spec fn spec_id(&self) -> usize {
        self.wait
    }

    /// The id of the wait.
    #[verifier::when_used_as_spec(spec_id)]
    pub fn id(&self) -> (id: usize)
        ensures
            id == self.id(),
    {
        self.wait
    }

    /// Polls the wait for its task, which brought `waker`: ready once the
    /// context is cancelled. Until then the context holds one waker for this
    /// wait, the one brought last.
    pub fn poll<W>(&self, tree: &mut ContextTree<W>, waker: W) -> (res: Poll)
        requires
            old(tree).wf(),
            old(tree)@.contains(self.ctx().id()),
            self.id() < old(tree)@.next_wait,
        ensures
            final(tree).wf(),
            final(tree)@ == old(tree)@.register(self.ctx().id(), self.id(), waker),
            res == Poll::Ready <==> old(tree)@.is_cancelled(self.ctx().id()),
            res == Poll::Pending <==> old(tree)@.is_alive(self.ctx().id()),
            old(tree)@.is_cancelled(self.ctx().id()) ==> final(tree)@ == old(tree)@,
            old(tree)@.is_alive(self.ctx().id()) ==> {
                let waits = final(tree)@.waits(self.ctx().id());
                let wakers = final(tree)@.wakers(self.ctx().id());
                &&& waits.no_duplicates()
                &&& waits.len() == wakers.len()
                &&& waits.contains(self.id())
                &&& wakers[waits.index_of(self.id())] == waker
                &&& waits.len() == if old(tree)@.waits(self.ctx().id()).contains(self.id()) {
                    old(tree)@.waits(self.ctx().id()).len()
                } else {
                    old(tree)@.waits(self.ctx().id()).len() + 1
                }
            },
    {
        tree.poll(self, waker)
    }
}

impl<W> View for ContextTree<W> {
    type V = ContextTreeView<W>;

    closed spec fn view(&self) -> ContextTreeView<W> {
        ContextTreeView {
            parents: Seq::new(self.nodes.len() as nat, |i: int| self.nodes[i].parent),
            statuses: Seq::new(self.nodes.len() as nat, |i: int| self.nodes[i].status.view()),
            next_wait: self.next_wait,
            requested: self.requested@,
        }
    }
}

impl<W> ContextTree<W> {
    /// The invariant of a tree.
    pub open spec fn wf(&self) -> bool {
        self@.wf()
    }

    /// A tree without any context.
    pub fn new() -> (tree: Self)
        ensures
            tree@ == ContextTreeView::<W>::empty(),
            tree.wf(),
    {
        let tree = ContextTree { nodes: Vec::new(), next_wait: 0, requested: Ghost(Set::empty()) };
        assert(tree@.parents =~= Seq::<Option<usize>>::empty());
        assert(tree@.statuses =~= Seq::<StatusView<W>>::empty());
        tree
    }

    /// The number of contexts created so far, which is the id that the next
    /// one gets.
    pub fn len(&self) -> (n: usize)
        ensures
            n == self@.len(),
    {
        self.nodes.len()
    }

    /// The number of waits made so far, which is the id that the next one
    /// gets.
    pub fn waits_made(&self) -> (n: usize)
        ensures
            n == self@.next_wait,
    {
        self.next_wait
    }

    /// The handle of the context with the id `id`, if there is one.
    pub fn context(&self, id: usize) -> (ctx: Option<Context>)
        ensures
            ctx is Some <==> self@.contains(id),
            ctx matches Some(c) ==> c.id() == id,
    {
        if id < self.nodes.len() {
            Some(Context { id })
        } else {
            None
        }
    }

    /// Whether `ctx` names a context of this tree.
    pub fn contains(&self, ctx: Context) -> (known: bool)
        ensures
            known == self@.contains(ctx.id()),
    {
        ctx.id < self.nodes.len()
    }

    /// Appends an alive context with the given parent link, and nothing else.
    fn new0(&mut self, parent: Option<usize>) -> (ctx: Context)
        ensures
            ctx.id() == old(self)@.len(),
            final(self)@.parents == old(self)@.parents.push(parent),
            final(self)@.statuses == old(self)@.statuses.push(StatusView::fresh()),
            final(self)@.requested == old(self)@.requested,
            final(self)@.next_wait == old(self)@.next_wait,
            old(self)@.len() < usize::MAX,
            final(self)@.len() == old(self)@.len() + 1,
            final(self).nodes.len() == old(self).nodes.len() + 1,
    {
        let id: usize = self.nodes.len();
        self.nodes.push(
            ContextInner {
                parent,
                status: ContextInnerStatus::Alive {
                    waits: Vec::new(),
                    wakers: Vec::new(),
                    children: HashSet::new(),
                },
            },
        );
        proof {
            assert(self.nodes.len() <= usize::MAX);
            assert(self@.parents =~= old(self)@.parents.push(parent));
            assert(self@.statuses =~= old(self)@.statuses.push(StatusView::fresh()));
        }
        Context { id }
    }

    /// Creates a context without a parent.
    pub fn new_context(&mut self) -> (ctx: Context)
        requires
            old(self).wf(),
        ensures
            final(self).wf(),
            final(self)@ == old(self)@.new_context(),
            ctx.id() == old(self)@.len(),
    {
        let ctx = self.new0(None);
        proof {
            old(self)@.law_new_context_wf();
        }
        ctx
    }

    /// Creates a context without a parent that cancels itself after
    /// `duration`, unless it is cancelled earlier. The timer is the caller's
    /// to run.
    pub fn with_timeout(&mut self, duration: Duration) -> (res: (Context, ContextTimer))
        requires
            old(self).wf(),
        ensures
            final(self).wf(),
            final(self)@ == old(self)@.new_context(),
            res.0.id() == old(self)@.len(),
            res.1.ctx == res.0,
            res.1.duration == duration,
    {
        let ctx = self.new_context();
        (ctx, ContextTimer { ctx, duration })
    }

    /// Derives a child from `parent`. Under an alive parent the child is
    /// alive and recorded; under a cancelled one it is born cancelled.
    pub fn new_child(&mut self, parent: Context) -> (child: Context)
        requires
            old(self).wf(),
            old(self)@.contains(parent.id()),
        ensures
            final(self).wf(),
            final(self)@ == old(self)@.new_child(parent.id()),
            child.id() == old(self)@.len(),
    {
        let child = self.new0(Some(parent.id));
        let ghost mid = self@;
        let recorded = match &mut self.nodes[parent.id].status {
            ContextInnerStatus::Alive { waits: _, wakers: _, children } => {
                children.insert(child.id);
                true
            },
            ContextInnerStatus::Cancelled => false,
        };
        if !recorded {
            self.nodes[child.id].status = ContextInnerStatus::Cancelled;
        }
        proof {
            let before = old(self)@;
            let after = before.new_child(parent.id());
            assert(self@.parents =~= mid.parents);
            assert(self@.parents =~= after.parents);
            assert forall|n: int| 0 <= n < after.statuses.len() implies self@.statuses[n]
                == after.statuses[n] by {
                assert(mid.statuses[n] == before.statuses.push(StatusView::fresh())[n]);
                if n == parent.id() {
                    assert(mid.statuses[n] == before.statuses[n]);
                    if recorded {
                        assert(mid.statuses[n] is Alive);
                        assert(self@.statuses[n].wakers() == mid.statuses[n].wakers());
                        assert(self@.statuses[n].waits() == mid.statuses[n].waits());
                        assert(self@.statuses[n].children() == mid.statuses[n].children().insert(
                            child.id(),
                        ));
                        assert(self@.statuses[n] == mid.statuses[n].with_child(child.id()));
                    } else {
                        assert(self@.statuses[n] == mid.statuses[n]);
                    }
                } else if n == child.id() {
                    assert(mid.statuses[parent.id() as int] == before.statuses[parent.id() as int]);
                    assert(recorded == (mid.statuses[parent.id() as int] is Alive));
                    assert(recorded == before.is_alive(parent.id()));
                } else {
                    assert(self@.statuses[n] == mid.statuses[n]);
                }
            }
            assert(self@.statuses =~= after.statuses);
            before.law_new_child_wf(parent.id());
        }
        child
    }

    /// Derives a child from `parent` that cancels itself after `duration`.
    /// A child that is born cancelled gets no timer.
    pub fn new_child_with_timeout(&mut self, parent: Context, duration: Duration) -> (res: (
        Context,
        Option<ContextTimer>,
    ))
        requires
            old(self).wf(),
            old(self)@.contains(parent.id()),
        ensures
            final(self).wf(),
            final(self)@ == old(self)@.new_child(parent.id()),
            res.0.id() == old(self)@.len(),
            res.1 is Some <==> old(self)@.is_alive(parent.id()),
            res.1 matches Some(timer) ==> timer.ctx == res.0 && timer.duration == duration,
    {
        let child = self.new_child(parent);
        let spawn_timer = !self.is_cancelled(child);
        if spawn_timer {
            (child, Some(ContextTimer { ctx: child, duration }))
        } else {
            (child, None)
        }
    }

    /// The id of the parent of `ctx`, if it has one.
    pub fn parent_id(&self, ctx: Context) -> (parent: Option<usize>)
        requires
            self@.contains(ctx.id()),
        ensures
            parent == self@.parent(ctx.id()),
    {
        self.nodes[ctx.id].parent
    }

    /// Whether `ctx` is cancelled.
    pub fn is_cancelled(&self, ctx: Context) -> (cancelled: bool)
        requires
            self@.contains(ctx.id()),
        ensures
            cancelled == self@.is_cancelled(ctx.id()),
            cancelled == !self@.is_alive(ctx.id()),
    {
        match &self.nodes[ctx.id].status {
            ContextInnerStatus::Alive { .. } => false,
            ContextInnerStatus::Cancelled => true,
        }
    }

    /// Whether `parent` records `child` among its alive children.
    pub fn has_child(&self, parent: Context, child: Context) -> (recorded: bool)
        requires
            self@.contains(parent.id()),
        ensures
            recorded == self@.children(parent.id()).contains(child.id()),
    {
        match &self.nodes[parent.id].status {
            ContextInnerStatus::Alive { waits: _, wakers: _, children } => children.contains(&child.id),
            ContextInnerStatus::Cancelled => false,
        }
    }

    /// The number of wakers that tasks suspended on `ctx` have left.
    pub fn waiting(&self, ctx: Context) -> (n: usize)
        requires
            self@.contains(ctx.id()),
        ensures
            n == self@.wakers(ctx.id()).len(),
    {
        match &self.nodes[ctx.id].status {
            ContextInnerStatus::Alive { waits: _, wakers, children: _ } => wakers.len(),
            ContextInnerStatus::Cancelled => 0,
        }
    }

    /// Begins a wait for the cancellation of `ctx`. Nothing is recorded on
    /// the context before the wait is polled.
    pub fn cancelled(&mut self, ctx: Context) -> (future: ContextCancelFuture)
        requires
            old(self).wf(),
            old(self)@.contains(ctx.id()),
            old(self)@.next_wait < usize::MAX,
        ensures
            final(self).wf(),
            final(self)@ == old(self)@.new_wait(),
            future.ctx() == ctx,
            future.id() == old(self)@.next_wait,
            !final(self)@.waits(ctx.id()).contains(future.id()),
    {
        let wait: usize = self.next_wait;
        self.next_wait = wait + 1;
        proof {
            assert(self@.parents =~= old(self)@.parents);
            assert(self@.statuses =~= old(self)@.statuses);
            old(self)@.law_new_wait_wf();
            let status = old(self)@.statuses[ctx.id() as int];
            assert(status.waits_ok(old(self)@.next_wait));
            if status.waits().contains(wait) {
                let i = status.waits().index_of(wait);
                assert(status.waits()[i] < wait);
            }
        }
        ContextCancelFuture { ctx, wait }
    }

    /// Polls `future` for its task, which brought `waker`.
    ///
    /// A cancelled context is ready and the tree stays as it was. An alive
    /// one is pending and holds one waker for this wait, the one brought
    /// last: the first poll records the wait behind those already there,
    /// every further poll replaces the waker that the wait left before.
    pub fn poll(&mut self, future: &ContextCancelFuture, waker: W) -> (res: Poll)
        requires
            old(self).wf(),
            old(self)@.contains(future.ctx().id()),
            future.id() < old(self)@.next_wait,
        ensures
            final(self).wf(),
            final(self)@ == old(self)@.register(future.ctx().id(), future.id(), waker),
            res == Poll::Ready <==> old(self)@.is_cancelled(future.ctx().id()),
            res == Poll::Pending <==> old(self)@.is_alive(future.ctx().id()),
            old(self)@.is_cancelled(future.ctx().id()) ==> final(self)@ == old(self)@,
            old(self)@.is_alive(future.ctx().id()) ==> {
                let waits = final(self)@.waits(future.ctx().id());
                let wakers = final(self)@.wakers(future.ctx().id());
                &&& waits.no_duplicates()
                &&& waits.len() == wakers.len()
                &&& waits.contains(future.id())
                &&& wakers[waits.index_of(future.id())] == waker
                &&& waits.len() == if old(self)@.waits(future.ctx().id()).contains(future.id()) {
                    old(self)@.waits(future.ctx().id()).len()
                } else {
                    old(self)@.waits(future.ctx().id()).len() + 1
                }
            },
    {
        let ctx = future.ctx;
        let wait: usize = future.wait;
        proof {
            assert(old(self)@.statuses[ctx.id() as int].waits_ok(old(self)@.next_wait));
        }
        let res = match &mut self.nodes[ctx.id].status {
            ContextInnerStatus::Alive { waits, wakers, children: _ } => {
                match position(waits, wait) {
                    Some(i) => {
                        wakers.set(i, waker);
                    },
                    None => {
                        waits.push(wait);
                        wakers.push(waker);
                    },
                }
                Poll::Pending
            },
            ContextInnerStatus::Cancelled => Poll::Ready,
        };
        proof {
            assert(self@.parents =~= old(self)@.parents);
            assert(self@.statuses =~= old(self)@.register(ctx.id(), wait, waker).statuses);
            old(self)@.law_register_wf(ctx.id(), wait, waker);
            if old(self)@.is_cancelled(ctx.id()) {
                assert(self@.statuses =~= old(self)@.statuses);
            } else {
                old(self)@.law_one_waker_per_wait(ctx.id(), wait, waker);
            }
        }
        res
    }

    /// Ends a wait that its task gives up: the waker that the wait left on
    /// its context, if it left one and the context is still alive, is taken
    /// back, so that a later cancellation does not hand it out.
    pub fn give_up(&mut self, future: ContextCancelFuture)
        requires
            old(self).wf(),
            old(self)@.contains(future.ctx().id()),
        ensures
            final(self).wf(),
            final(self)@ == old(self)@.unregister(future.ctx().id(), future.id()),
            !final(self)@.waits(future.ctx().id()).contains(future.id()),
            old(self)@.is_cancelled(future.ctx().id()) ==> final(self)@ == old(self)@,
    {
        let ctx = future.ctx;
        let wait: usize = future.wait;
        proof {
            assert(old(self)@.statuses[ctx.id() as int].waits_ok(old(self)@.next_wait));
        }
        match &mut self.nodes[ctx.id].status {
            ContextInnerStatus::Alive { waits, wakers, children: _ } => {
                match position(waits, wait) {
                    Some(i) => {
                        waits.remove(i);
                        wakers.remove(i);
                    },
                    None => {},
                }
            },
            ContextInnerStatus::Cancelled => {},
        }
        proof {
            assert(self@.parents =~= old(self)@.parents);
            assert(self@.statuses =~= old(self)@.unregister(ctx.id(), wait).statuses);
            old(self)@.law_unregister_wf(ctx.id(), wait);
            crate::util::context::lemmas::lemma_without_wait_ok(
                old(self)@.statuses[ctx.id() as int],
                wait,
                old(self)@.next_wait,
            );
            if old(self)@.is_cancelled(ctx.id()) {
                assert(self@.statuses =~= old(self)@.statuses);
            }
        }
    }

    /// Cancels `ctx` and every context below it, and returns the wakers of
    /// the tasks that were suspended on them, one for each wait, together
    /// with the ids of the contexts that it cancelled. Cancelling a
    /// cancelled context changes nothing and wakes nobody.
    pub fn cancel(&mut self, ctx: Context) -> (res: Cancellation<W>)
        requires
            old(self).wf(),
            old(self)@.contains(ctx.id()),
        ensures
            final(self).wf(),
            final(self)@ == old(self)@.cancel(ctx.id()),
            res.is_of(old(self)@, ctx.id()),
            old(self)@.is_cancelled(ctx.id()) ==> final(self)@.statuses == old(self)@.statuses,
    {
        self.cancel_for(ctx, ContextCancelReason::User)
    }

    /// Takes the outcome of the wait that `timer` asked for: when the time
    /// passed first, the context is cancelled as by [`ContextTree::cancel`];
    /// when the context was seen cancelled first, nothing is left to do.
    pub fn timer_done(&mut self, timer: &ContextTimer, outcome: TimerOutcome) -> (res:
        Cancellation<W>)
        requires
            old(self).wf(),
            old(self)@.contains(timer.ctx.id()),
        ensures
            final(self).wf(),
            outcome == TimerOutcome::Elapsed ==> final(self)@ == old(self)@.cancel(timer.ctx.id())
                && res.is_of(old(self)@, timer.ctx.id()),
            outcome == TimerOutcome::Cancelled ==> final(self)@ == old(self)@ && res.is_nothing(),
            old(self)@.is_cancelled(timer.ctx.id()) ==> res.is_nothing() && final(self)@.statuses
                == old(self)@.statuses,
    {
        match outcome {
            TimerOutcome::Cancelled => Cancellation::nothing(),
            TimerOutcome::Elapsed => self.cancel_for(timer.ctx, ContextCancelReason::Timeout),
        }
    }

    /// Runs the cancellation routine on `ctx` for a reason other than the
    /// cancellation of its parent, and records that it was asked for.
    fn cancel_for(&mut self, ctx: Context, reason: ContextCancelReason) -> (res: Cancellation<W>)
        requires
            old(self).wf(),
            old(self)@.contains(ctx.id()),
            reason != ContextCancelReason::Parent,
        ensures
            final(self).wf(),
            final(self)@ == old(self)@.cancel(ctx.id()),
            res.is_of(old(self)@, ctx.id()),
            old(self)@.is_cancelled(ctx.id()) ==> final(self)@.statuses == old(self)@.statuses,
    {
        broadcast use vstd::multiset::group_multiset_axioms;

        let ghost before = self@;
        let mut woken: Vec<W> = Vec::new();
        let mut cancelled: Vec<usize> = Vec::new();
        self.cancel0(ctx.id, reason, &mut woken, &mut cancelled);
        let ghost mid = self@;
        self.requested = Ghost(self.requested@.insert(ctx.id));
        proof {
            let after = self@;
            assert forall|n: usize| n < before.len() implies mid.wakers(n) == after.wakers(n) by {}
            mid.lemma_pending_same(after, before.len());
            assert(after.parents =~= before.parents);
            assert(after.statuses =~= before.cancel_statuses(ctx.id(), true));
            before.law_cancel_wf(ctx.id());
            lemma_empty_to_multiset::<W>();
            assert forall|n: usize| n < before.len() implies after.wakers(n) == if before.in_subtree(
                ctx.id(),
                n,
            ) {
                Seq::<W>::empty()
            } else {
                before.wakers(n)
            } by {}
            before.lemma_pending_split(after, ctx.id(), before.len());
            assert(after.pending() == after.pending_upto(before.len()));
            assert(before.pending() == after.pending().add(before.woken(ctx.id())));
            assert(Seq::<W>::empty().to_multiset().add(before.pending()) =~= before.pending());
            assert(woken@.to_multiset().add(after.pending()) == after.pending().add(
                before.woken(ctx.id()),
            ));
            assert forall|w: W| woken@.to_multiset().count(w) == before.woken(ctx.id()).count(
                w,
            ) by {
                assert(woken@.to_multiset().add(after.pending()).count(w) == after.pending().add(
                    before.woken(ctx.id()),
                ).count(w));
            }
            assert(woken@.to_multiset() =~= before.woken(ctx.id()));
            if before.is_cancelled(ctx.id()) {
                lemma_cancel_again(before, ctx.id(), true);
            }
            assert forall|n: usize|
                cancelled@.to_set().contains(n) <==> before.cancelled_by(ctx.id()).contains(n) by {
                assert(cancelled@.contains(n) <==> (before.is_alive(n) && before.in_subtree(
                    ctx.id(),
                    n,
                )));
            }
            assert(cancelled@.to_set() =~= before.cancelled_by(ctx.id()));
        }
        Cancellation { woken, cancelled }
    }

    /// The cancellation routine: marks `ctx` cancelled, moves the wakers that
    /// were suspended on it to `woken`, runs itself on every child that `ctx`
    /// recorded, and, unless the parent's own cancellation is the reason,
    /// takes `ctx` out of the records of its parent.
    fn cancel0(
        &mut self,
        ctx: usize,
        reason: ContextCancelReason,
        woken: &mut Vec<W>,
        cancelled: &mut Vec<usize>,
    )
        requires
            old(self)@.links_ok(),
            old(self)@.contains(ctx),
            subtree_books_ok(old(self)@, ctx),
            old(cancelled)@.no_duplicates(),
            forall|n: usize| old(cancelled)@.contains(n) ==> !old(self)@.is_alive(n),
        ensures
            final(cancelled)@.no_duplicates(),
            old(cancelled)@.len() <= final(cancelled)@.len(),
            forall|i: int|
                0 <= i < old(cancelled)@.len() ==> final(cancelled)@[i] == old(cancelled)@[i],
            forall|n: usize| #[trigger]
                final(cancelled)@.contains(n) <==> old(cancelled)@.contains(n) || (old(
                    self,
                )@.is_alive(n) && old(self)@.in_subtree(ctx, n)),
            old(self)@.is_alive(ctx) ==> final(cancelled)@.len() > old(cancelled)@.len()
                && final(cancelled)@[old(cancelled)@.len() as int] == ctx,
            old(self)@.is_cancelled(ctx) ==> final(cancelled)@ == old(cancelled)@,
            final(self)@.parents == old(self)@.parents,
            final(self)@.requested == old(self)@.requested,
            final(self)@.next_wait == old(self)@.next_wait,
            final(self)@.statuses == old(self)@.cancel_statuses(
                ctx,
                reason != ContextCancelReason::Parent,
            ),
            final(woken)@.to_multiset().add(final(self)@.pending()) == old(woken)@.to_multiset().add(
                old(self)@.pending(),
            ),
            old(self)@.is_cancelled(ctx) ==> final(woken)@ == old(woken)@,
        decreases old(self)@.len() - ctx,
    {
        let ghost before = self@;
        let ghost woken0 = woken@;
        let ghost list0 = cancelled@;
        let ghost unlink = reason != ContextCancelReason::Parent;
        let mut prev = ContextInnerStatus::Cancelled;
        std::mem::swap(&mut self.nodes[ctx].status, &mut prev);
        match prev {
            ContextInnerStatus::Cancelled => {
                proof {
                    assert(self@.parents =~= before.parents);
                    assert(self@.statuses =~= before.statuses);
                    lemma_cancel_again(before, ctx, unlink);
                    assert forall|n: usize| before.is_alive(n) implies !before.in_subtree(
                        ctx,
                        n,
                    ) by {
                        if before.in_subtree(ctx, n) {
                            assert forall|m: usize|
                                before.contains(m) && before.in_subtree(
                                    ctx,
                                    m,
                                ) implies before.node_ok(m) by {
                                assert(books_ok(before.parents, before.statuses, m));
                            }
                            before.lemma_subtree_cancelled(ctx, n);
                        }
                    }
                }
            },
            ContextInnerStatus::Alive { waits: _, wakers, children } => {
                let mut wakers = wakers;
                let ghost suspended = wakers@;
                woken.append(&mut wakers);
                cancelled.push(ctx);
                let kids = child_list(&children);
                proof {
                    assert(self@.statuses =~= before.statuses.update(
                        ctx as int,
                        StatusView::Cancelled,
                    ));
                    lemma_list_start(list0, before, self@, ctx);
                    assert(self@.parents =~= before.parents);
                    assert(self@.statuses =~= before.statuses.update(
                        ctx as int,
                        StatusView::Cancelled,
                    ));
                    lemma_cascade_start(before, self@, ctx);
                    before.lemma_pending_update(self@, ctx, before.len());
                    lemma_empty_to_multiset::<W>();
                    vstd::seq_lib::lemma_multiset_commutative(woken0, suspended);
                    assert(before.wakers(ctx) == suspended);
                    assert(self@.wakers(ctx) == Seq::<W>::empty());
                    assert(woken@ == woken0 + suspended);
                    assert(before.pending() =~= self@.pending().add(suspended.to_multiset()));
                    assert(woken@.to_multiset().add(self@.pending()) =~= woken0.to_multiset().add(
                        before.pending(),
                    ));
                    assert(kids@.take(0) =~= Seq::<usize>::empty());
                }
                let mut i: usize = 0;
                while i < kids.len()
                    invariant
                        i <= kids.len(),
                        before.links_ok(),
                        before.contains(ctx),
                        before.is_alive(ctx),
                        subtree_books_ok(before, ctx),
                        before == old(self)@,
                        kids@.to_set() == before.children(ctx),
                        cascading(before, self@, ctx, kids@.take(i as int)),
                        woken@.to_multiset().add(self@.pending()) == woken0.to_multiset().add(
                            before.pending(),
                        ),
                        list0 == old(cancelled)@,
                        forall|n: usize| list0.contains(n) ==> !before.is_alive(n),
                        listed(list0, cancelled@, before, self@),
                        cancelled@.len() > list0.len(),
                        cancelled@[list0.len() as int] == ctx,
                    decreases kids.len() - i,
                {
                    let child: usize = kids[i];
                    let ghost cur = self@;
                    let ghost list = cancelled@;
                    proof {
                        assert forall|n: usize| list.contains(n) implies !cur.is_alive(n) by {
                            if list0.contains(n) && n < before.statuses.len() {
                                assert(crate::util::context::model::cancelled_at(
                                    before.statuses,
                                    n,
                                ));
                            }
                        }
                        assert(kids@.contains(child));
                        assert(kids@.to_set().contains(child));
                        assert(records(before.statuses, ctx, child));
                        assert(books_ok(before.parents, before.statuses, ctx));
                        assert(child_of(before.parents, child, ctx));
                        lemma_cascade_descend(before, cur, ctx, kids@.take(i as int), child);
                        assert(ctx < child);
                        assert(cur.len() == before.len());
                    }
                    self.cancel0(child, ContextCancelReason::Parent, woken, cancelled);
                    proof {
                        lemma_list_step(list0, list, cancelled@, before, cur, self@, child);
                        lemma_cascade_step(before, cur, self@, ctx, kids@.take(i as int), child);
                        assert(kids@.take(i as int).push(child) =~= kids@.take(i + 1));
                    }
                    i = i + 1;
                }
                proof {
                    assert(kids@.take(i as int) =~= kids@);
                    lemma_cascade_end(before, self@, ctx, kids@);
                    lemma_list_end(list0, cancelled@, before, self@, ctx);
                }
                let ghost mid = self@;
                match reason {
                    ContextCancelReason::Parent => {},
                    _ => {
                        match self.nodes[ctx].parent {
                            Some(p) => {
                                proof {
                                    assert(child_of(before.parents, ctx, p));
                                }
                                match &mut self.nodes[p].status {
                                    ContextInnerStatus::Alive { waits: _, wakers: _, children } => {
                                        children.remove(&ctx);
                                    },
                                    ContextInnerStatus::Cancelled => {},
                                }
                                proof {
                                    assert(!before.in_subtree(ctx, p)) by {
                                        if before.in_subtree(ctx, p) {
                                            crate::util::context::lemmas::lemma_ancestor_le(
                                                before.parents,
                                                ctx,
                                                p,
                                            );
                                        }
                                    }
                                    assert(self@.parents =~= before.parents);
                                    let goal = before.cancel_statuses(ctx, true);
                                    assert forall|n: int|
                                        0 <= n < goal.len() implies self@.statuses[n]
                                        == goal[n] by {
                                        if n != p {
                                            assert(self@.statuses[n] == mid.statuses[n]);
                                            assert(!child_of(before.parents, ctx, n as usize));
                                        } else {
                                            assert(mid.statuses[n] == before.statuses[n]);
                                        }
                                    }
                                    assert(self@.statuses =~= goal);
                                    assert forall|n: usize| n < before.len() implies mid.wakers(n)
                                        == self@.wakers(n) by {}
                                    mid.lemma_pending_same(self@, before.len());
                                }
                            },
                            None => {
                                proof {
                                    assert forall|n: usize| !child_of(before.parents, ctx, n) by {}
                                    assert(mid.statuses =~= before.cancel_statuses(ctx, true));
                                }
                            },
                        }
                    },
                }
            },
        }
    }
}

} // verus!
