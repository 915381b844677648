//! The mathematical model of a forest of cancellation contexts.
//!
//! A context is named by its id, which is also its position in the forest:
//! ids are handed out in creation order and never reused, so a child's id is
//! always greater than its parent's.

use vstd::multiset::Multiset;
use vstd::prelude::*;

verus! {

/// The status of one context.
pub enum StatusView<W> {
    /// Not cancelled yet.
    Alive {
        /// The waits that are suspended on this context, in the order in
        /// which they were recorded.
        waits: Seq<usize>,
        /// For each of these waits, at the same position, the waker that it
        /// brought last.
        wakers: Seq<W>,
        /// The ids of the children that are recorded as alive.
        children: Set<usize>,
    },
    /// Cancelled, for good.
    Cancelled,
}

impl<W> StatusView<W> {
    /// An alive status with no waker and no child.
    pub open spec fn fresh() -> Self {
        StatusView::Alive { waits: Seq::empty(), wakers: Seq::empty(), children: Set::empty() }
    }

    /// The wakers recorded in this status; none once cancelled.
    pub open spec fn wakers(self) -> Seq<W> {
        match self {
            StatusView::Alive { wakers, .. } => wakers,
            StatusView::Cancelled => Seq::empty(),
        }
    }

    /// The waits recorded in this status; none once cancelled.
    pub open spec fn waits(self) -> Seq<usize> {
        match self {
            StatusView::Alive { waits, .. } => waits,
            StatusView::Cancelled => Seq::empty(),
        }
    }

    /// Every recorded wait has one waker, no wait is recorded twice, and
    /// every recorded wait is one of the first `next_wait` that were made.
    pub open spec fn waits_ok(self, next_wait: usize) -> bool {
        match self {
            StatusView::Alive { waits, wakers, .. } => {
                &&& waits.len() == wakers.len()
                &&& waits.no_duplicates()
                &&& forall|i: int| 0 <= i < waits.len() ==> #[trigger] waits[i] < next_wait
            },
            StatusView::Cancelled => true,
        }
    }

    /// The children recorded in this status; none once cancelled.
    pub open spec fn children(self) -> Set<usize> {
        match self {
            StatusView::Alive { children, .. } => children,
            StatusView::Cancelled => Set::empty(),
        }
    }

    /// This status after `wait` was polled with `waker`, if it is alive: a
    /// wait that is recorded already keeps its place and gets the new waker,
    /// any other is recorded last.
    pub open spec fn with_waker(self, wait: usize, waker: W) -> Self {
        match self {
            StatusView::Alive { waits, wakers, children } => if waits.contains(wait) {
                StatusView::Alive {
                    waits,
                    wakers: wakers.update(waits.index_of(wait), waker),
                    children,
                }
            } else {
                StatusView::Alive { waits: waits.push(wait), wakers: wakers.push(waker), children }
            },
            StatusView::Cancelled => StatusView::Cancelled,
        }
    }

    /// This status after `wait` was given up, if it is alive: the wait and
    /// its waker are no longer recorded.
    pub open spec fn without_wait(self, wait: usize) -> Self {
        match self {
            StatusView::Alive { waits, wakers, children } => if waits.contains(wait) {
                StatusView::Alive {
                    waits: waits.remove(waits.index_of(wait)),
                    wakers: wakers.remove(waits.index_of(wait)),
                    children,
                }
            } else {
                self
            },
            StatusView::Cancelled => StatusView::Cancelled,
        }
    }

    /// This status with `child` recorded, if it is alive.
    pub open spec fn with_child(self, child: usize) -> Self {
        match self {
            StatusView::Alive { waits, wakers, children } => StatusView::Alive {
                waits,
                wakers,
                children: children.insert(child),
            },
            StatusView::Cancelled => StatusView::Cancelled,
        }
    }

    /// This status with `child` no longer recorded, if it is alive.
    pub open spec fn without_child(self, child: usize) -> Self {
        match self {
            StatusView::Alive { waits, wakers, children } => StatusView::Alive {
                waits,
                wakers,
                children: children.remove(child),
            },
            StatusView::Cancelled => StatusView::Cancelled,
        }
    }
}

/// Whether `a` is `n` or lies on the parent chain that starts at `n`.
pub open spec fn ancestor_or_self(parents: Seq<Option<usize>>, a: usize, n: usize) -> bool
    decreases n,
{
    a == n || (n < parents.len() && match parents[n as int] {
        Some(p) => p < n && ancestor_or_self(parents, a, p),
        None => false,
    })
}

/// Whether `child` is a context that was derived from `parent`.
pub open spec fn child_of(parents: Seq<Option<usize>>, child: usize, parent: usize) -> bool {
    child < parents.len() && parents[child as int] == Some(parent)
}

/// Whether `id` names a context that is not cancelled.
pub open spec fn alive_at<W>(statuses: Seq<StatusView<W>>, id: usize) -> bool {
    id < statuses.len() && statuses[id as int] is Alive
}

/// Whether `id` names a cancelled context.
pub open spec fn cancelled_at<W>(statuses: Seq<StatusView<W>>, id: usize) -> bool {
    id < statuses.len() && statuses[id as int] is Cancelled
}

/// Whether the context `id` records `child` among its alive children.
pub open spec fn records<W>(statuses: Seq<StatusView<W>>, id: usize, child: usize) -> bool {
    id < statuses.len() && statuses[id as int].children().contains(child)
}

/// The bookkeeping of the context `n` agrees with its children's statuses:
/// an alive context records exactly its alive children, and under a cancelled
/// context no child is alive.
pub open spec fn books_ok<W>(
    parents: Seq<Option<usize>>,
    statuses: Seq<StatusView<W>>,
    n: usize,
) -> bool {
    if alive_at(statuses, n) {
        forall|c: usize|
            #![trigger records(statuses, n, c)]
            #![trigger child_of(parents, c, n)]
            records(statuses, n, c) <==> (child_of(parents, c, n) && alive_at(statuses, c))
    } else {
        forall|c: usize| #[trigger] child_of(parents, c, n) ==> cancelled_at(statuses, c)
    }
}

/// Whether cancellation was asked for on `n` or on one of its ancestors.
pub open spec fn reached_in(parents: Seq<Option<usize>>, requested: Set<usize>, n: usize) -> bool {
    exists|a: usize| requested.contains(a) && #[trigger] ancestor_or_self(parents, a, n)
}

/// One thing that is done to a forest of contexts.
pub enum ContextOp<W> {
    /// A root context is created.
    NewContext,
    /// A child is derived.
    NewChild {
        /// The context that it is derived from.
        parent: usize,
    },
    /// A task begins to wait for the cancellation of some context.
    NewWait,
    /// A task polls its wait for the cancellation of a context.
    Poll {
        /// The context.
        ctx: usize,
        /// The wait.
        wait: usize,
        /// The waker that the task brings.
        waker: W,
    },
    /// A task gives up its wait for the cancellation of a context.
    GiveUp {
        /// The context.
        ctx: usize,
        /// The wait.
        wait: usize,
    },
    /// A caller cancels a context.
    Cancel {
        /// The context.
        ctx: usize,
    },
    /// The timer of a context runs out.
    TimerElapsed {
        /// The context.
        ctx: usize,
    },
}

impl<W> ContextOp<W> {
    /// Whether the operation asks for the cancellation of `ctx` itself.
    pub open spec fn asks_cancel(self, ctx: usize) -> bool {
        match self {
            ContextOp::Cancel { ctx: c } => c == ctx,
            ContextOp::TimerElapsed { ctx: c } => c == ctx,
            _ => false,
        }
    }
}

/// The abstract state of a forest of contexts.
pub struct ContextTreeView<W> {
    /// For each id, the id of the context it was derived from.
    pub parents: Seq<Option<usize>>,
    /// For each id, the status of the context.
    pub statuses: Seq<StatusView<W>>,
    /// The number of waits made so far, which is the id that the next one
    /// gets.
    pub next_wait: usize,
    /// The ids on which cancellation was asked for directly, by a caller or
    /// by a timer (history; cascades do not add to it).
    pub requested: Set<usize>,
}

impl<W> ContextTreeView<W> {
    /// The forest without any context.
    pub open spec fn empty() -> Self {
        ContextTreeView {
            parents: Seq::empty(),
            statuses: Seq::empty(),
            next_wait: 0,
            requested: Set::empty(),
        }
    }

    /// The number of contexts ever created, which is the next id.
    pub open spec fn len(self) -> nat {
        self.parents.len()
    }

    /// Whether `id` names a context of this forest.
    pub open spec fn contains(self, id: usize) -> bool {
        id < self.parents.len()
    }

    /// Whether `id` names a context that is not cancelled.
    pub open spec fn is_alive(self, id: usize) -> bool {
        alive_at(self.statuses, id)
    }

    /// Whether `id` names a cancelled context.
    pub open spec fn is_cancelled(self, id: usize) -> bool {
        cancelled_at(self.statuses, id)
    }

    /// The parent of `id`, if it has one.
    pub open spec fn parent(self, id: usize) -> Option<usize> {
        if self.contains(id) {
            self.parents[id as int]
        } else {
            None
        }
    }

    /// Whether `child` was derived from `parent`.
    pub open spec fn is_child_of(self, child: usize, parent: usize) -> bool {
        child_of(self.parents, child, parent)
    }

    /// The wakers suspended on `id`.
    pub open spec fn wakers(self, id: usize) -> Seq<W> {
        if self.contains(id) {
            self.statuses[id as int].wakers()
        } else {
            Seq::empty()
        }
    }

    /// The waits suspended on `id`.
    pub open spec fn waits(self, id: usize) -> Seq<usize> {
        if self.contains(id) {
            self.statuses[id as int].waits()
        } else {
            Seq::empty()
        }
    }

    /// The children recorded as alive under `id`.
    pub open spec fn children(self, id: usize) -> Set<usize> {
        if self.contains(id) {
            self.statuses[id as int].children()
        } else {
            Set::empty()
        }
    }

    /// Whether `n` is `root` or one of its descendants.
    pub open spec fn in_subtree(self, root: usize, n: usize) -> bool {
        ancestor_or_self(self.parents, root, n)
    }

    /// Every parent was created before its child.
    pub open spec fn links_ok(self) -> bool {
        &&& self.statuses.len() == self.parents.len()
        &&& self.parents.len() <= usize::MAX
        &&& forall|c: usize, p: usize| #[trigger] child_of(self.parents, c, p) ==> p < c
    }

    /// The bookkeeping of one context agrees with its children's statuses.
    pub open spec fn node_ok(self, n: usize) -> bool {
        books_ok(self.parents, self.statuses, n)
    }

    /// Whether cancellation was asked for on `n` or on one of its ancestors.
    pub open spec fn reached(self, n: usize) -> bool {
        reached_in(self.parents, self.requested, n)
    }

    /// The statuses agree with the history: a context is cancelled exactly
    /// when cancellation was asked for on it or on one of its ancestors.
    pub open spec fn history_ok(self) -> bool {
        &&& forall|a: usize| self.requested.contains(a) ==> a < self.parents.len()
        &&& forall|n: usize|
            n < self.parents.len() ==> (#[trigger] cancelled_at(self.statuses, n) <==> reached_in(
                self.parents,
                self.requested,
                n,
            ))
    }

    /// The invariant of the forest.
    pub open spec fn wf(self) -> bool {
        &&& self.links_ok()
        &&& forall|n: usize|
            n < self.parents.len() ==> #[trigger] books_ok(self.parents, self.statuses, n)
        &&& forall|n: int|
            0 <= n < self.statuses.len() ==> (#[trigger] self.statuses[n]).waits_ok(self.next_wait)
        &&& self.history_ok()
    }

    /// The forest after a root context was created.
    pub open spec fn new_context(self) -> Self {
        ContextTreeView {
            parents: self.parents.push(None),
            statuses: self.statuses.push(StatusView::fresh()),
            next_wait: self.next_wait,
            requested: self.requested,
        }
    }

    /// The forest after a child was derived from `parent`: recorded under an
    /// alive parent, born cancelled under a cancelled one.
    pub open spec fn new_child(self, parent: usize) -> Self {
        let child = self.parents.len() as usize;
        if self.is_alive(parent) {
            ContextTreeView {
                parents: self.parents.push(Some(parent)),
                statuses: self.statuses.update(
                    parent as int,
                    self.statuses[parent as int].with_child(child),
                ).push(StatusView::fresh()),
                next_wait: self.next_wait,
            requested: self.requested,
            }
        } else {
            ContextTreeView {
                parents: self.parents.push(Some(parent)),
                statuses: self.statuses.push(StatusView::Cancelled),
                next_wait: self.next_wait,
            requested: self.requested,
            }
        }
    }

    /// The statuses after the cancellation routine ran on `ctx`: the whole
    /// subtree of `ctx` is cancelled, and with `unlink` the parent of `ctx`
    /// no longer records it.
    pub open spec fn cancel_statuses(self, ctx: usize, unlink: bool) -> Seq<StatusView<W>> {
        Seq::new(
            self.statuses.len(),
            |n: int|
                if self.in_subtree(ctx, n as usize) {
                    StatusView::Cancelled
                } else if unlink && self.is_alive(ctx) && self.is_child_of(ctx, n as usize) {
                    self.statuses[n].without_child(ctx)
                } else {
                    self.statuses[n]
                },
        )
    }

    /// The forest after cancellation was asked for on `ctx`.
    pub open spec fn cancel(self, ctx: usize) -> Self {
        ContextTreeView {
            parents: self.parents,
            statuses: self.cancel_statuses(ctx, true),
            next_wait: self.next_wait,
            requested: self.requested.insert(ctx),
        }
    }

    /// The forest after a task began to wait.
    pub open spec fn new_wait(self) -> Self {
        ContextTreeView {
            parents: self.parents,
            statuses: self.statuses,
            next_wait: (self.next_wait + 1) as usize,
            requested: self.requested,
        }
    }

    /// The forest after the wait `wait` for `ctx` was polled by a task that
    /// brought `waker`.
    pub open spec fn register(self, ctx: usize, wait: usize, waker: W) -> Self {
        ContextTreeView {
            parents: self.parents,
            statuses: self.statuses.update(
                ctx as int,
                self.statuses[ctx as int].with_waker(wait, waker),
            ),
            next_wait: self.next_wait,
            requested: self.requested,
        }
    }

    /// The forest after the wait `wait` for `ctx` was given up.
    pub open spec fn unregister(self, ctx: usize, wait: usize) -> Self {
        ContextTreeView {
            parents: self.parents,
            statuses: self.statuses.update(ctx as int, self.statuses[ctx as int].without_wait(wait)),
            next_wait: self.next_wait,
            requested: self.requested,
        }
    }

    /// Whether `op` can be done to this forest: the contexts that it names
    /// exist, and there is an id left for the one that it creates.
    pub open spec fn enabled(self, op: ContextOp<W>) -> bool {
        match op {
            ContextOp::NewContext => self.parents.len() < usize::MAX,
            ContextOp::NewChild { parent } => self.contains(parent) && self.parents.len()
                < usize::MAX,
            ContextOp::NewWait => self.next_wait < usize::MAX,
            ContextOp::Poll { ctx, wait, .. } => self.contains(ctx) && wait < self.next_wait,
            ContextOp::GiveUp { ctx, .. } => self.contains(ctx),
            ContextOp::Cancel { ctx } => self.contains(ctx),
            ContextOp::TimerElapsed { ctx } => self.contains(ctx),
        }
    }

    /// The forest after `op` was done to it.
    pub open spec fn step(self, op: ContextOp<W>) -> Self {
        match op {
            ContextOp::NewContext => self.new_context(),
            ContextOp::NewChild { parent } => self.new_child(parent),
            ContextOp::NewWait => self.new_wait(),
            ContextOp::Poll { ctx, wait, waker } => self.register(ctx, wait, waker),
            ContextOp::GiveUp { ctx, wait } => self.unregister(ctx, wait),
            ContextOp::Cancel { ctx } => self.cancel(ctx),
            ContextOp::TimerElapsed { ctx } => self.cancel(ctx),
        }
    }

    /// The forest that `ops`, done in this order, make of the empty one.
    pub open spec fn run(ops: Seq<ContextOp<W>>) -> Self
        decreases ops.len(),
    {
        if ops.len() == 0 {
            Self::empty()
        } else {
            Self::run(ops.drop_last()).step(ops.last())
        }
    }

    /// Whether each of `ops` can be done when its turn comes.
    pub open spec fn valid(ops: Seq<ContextOp<W>>) -> bool
        decreases ops.len(),
    {
        ops.len() == 0 || (Self::valid(ops.drop_last()) && Self::run(ops.drop_last()).enabled(
            ops.last(),
        ))
    }

    /// The contexts that cancelling `ctx` cancels: those of its subtree that
    /// are alive.
    pub open spec fn cancelled_by(self, ctx: usize) -> Set<usize> {
        Set::new(|n: usize| self.is_alive(n) && self.in_subtree(ctx, n))
    }

    /// The wakers suspended on the first `k` contexts.
    pub open spec fn pending_upto(self, k: nat) -> Multiset<W>
        decreases k,
    {
        if k == 0 {
            Multiset::empty()
        } else {
            self.pending_upto((k - 1) as nat).add(self.wakers((k - 1) as usize).to_multiset())
        }
    }

    /// All the wakers suspended anywhere in the forest.
    pub open spec fn pending(self) -> Multiset<W> {
        self.pending_upto(self.parents.len())
    }

    /// The wakers suspended on those of the first `k` contexts that lie in
    /// the subtree of `root`.
    pub open spec fn subtree_pending_upto(self, root: usize, k: nat) -> Multiset<W>
        decreases k,
    {
        if k == 0 {
            Multiset::empty()
        } else if self.in_subtree(root, (k - 1) as usize) {
            self.subtree_pending_upto(root, (k - 1) as nat).add(
                self.wakers((k - 1) as usize).to_multiset(),
            )
        } else {
            self.subtree_pending_upto(root, (k - 1) as nat)
        }
    }

    /// The number of waits that are suspended on those of the first `k`
    /// contexts that lie in the subtree of `root`.
    pub open spec fn subtree_waits_upto(self, root: usize, k: nat) -> nat
        decreases k,
    {
        if k == 0 {
            0
        } else if self.in_subtree(root, (k - 1) as usize) {
            self.subtree_waits_upto(root, (k - 1) as nat) + self.waits((k - 1) as usize).len()
        } else {
            self.subtree_waits_upto(root, (k - 1) as nat)
        }
    }

    /// The wakers that cancelling `ctx` wakes: those suspended on `ctx` and
    /// on its descendants.
    pub open spec fn woken(self, ctx: usize) -> Multiset<W> {
        self.subtree_pending_upto(ctx, self.parents.len())
    }
}

} // verus!
