//! Facts about the model that the proofs of the operations share.

use crate::util::context::model::{
    alive_at, ancestor_or_self, books_ok, cancelled_at, child_of, reached_in, records,
    ContextTreeView, StatusView,
};
use vstd::multiset::Multiset;
use vstd::prelude::*;

verus! {

/// An ancestor was created no later than its descendant.
pub proof fn lemma_ancestor_le(parents: Seq<Option<usize>>, a: usize, n: usize)
    requires
        ancestor_or_self(parents, a, n),
    ensures
        a <= n,
    decreases n,
{
    if a != n {
        let p = parents[n as int]->0;
        lemma_ancestor_le(parents, a, p);
    }
}

/// Being an ancestor is transitive.
pub proof fn lemma_ancestor_trans(parents: Seq<Option<usize>>, a: usize, b: usize, n: usize)
    requires
        ancestor_or_self(parents, a, b),
        ancestor_or_self(parents, b, n),
    ensures
        ancestor_or_self(parents, a, n),
    decreases n,
{
    if b != n {
        let p = parents[n as int]->0;
        lemma_ancestor_trans(parents, a, b, p);
    }
}

/// Appending a context changes nothing about who descends from whom among
/// the contexts that were there already.
pub proof fn lemma_ancestor_push(
    parents: Seq<Option<usize>>,
    last: Option<usize>,
    a: usize,
    n: usize,
)
    requires
        n < parents.len(),
    ensures
        ancestor_or_self(parents.push(last), a, n) == ancestor_or_self(parents, a, n),
    decreases n,
{
    if a != n {
        match parents[n as int] {
            Some(p) => {
                if p < n {
                    lemma_ancestor_push(parents, last, a, p);
                }
            },
            None => {},
        }
    }
}

/// The books of `n` stay in order when `n` keeps its status and its children
/// keep theirs.
pub proof fn lemma_books_frame<W>(
    parents: Seq<Option<usize>>,
    statuses: Seq<StatusView<W>>,
    parents2: Seq<Option<usize>>,
    statuses2: Seq<StatusView<W>>,
    n: usize,
)
    requires
        n < statuses.len(),
        n < statuses2.len(),
        books_ok(parents, statuses, n),
        statuses2[n as int] == statuses[n as int],
        forall|x: usize| child_of(parents2, x, n) == child_of(parents, x, n),
        forall|x: usize|
            child_of(parents, x, n) ==> (alive_at(statuses2, x) == alive_at(statuses, x)
                && cancelled_at(statuses2, x) == cancelled_at(statuses, x)),
    ensures
        books_ok(parents2, statuses2, n),
{
    if alive_at(statuses2, n) {
        assert forall|x: usize|
            #![trigger records(statuses2, n, x)]
            #![trigger child_of(parents2, x, n)]
            records(statuses2, n, x) <==> (child_of(parents2, x, n) && alive_at(statuses2, x)) by {
            assert(records(statuses, n, x) <==> (child_of(parents, x, n) && alive_at(statuses, x)));
            assert(child_of(parents2, x, n) == child_of(parents, x, n));
        }
    } else {
        assert forall|x: usize| #[trigger] child_of(parents2, x, n) implies cancelled_at(
            statuses2,
            x,
        ) by {
            assert(child_of(parents, x, n));
        }
    }
}

/// Appending a context leaves the history of the others as it was, and the
/// new context is reached exactly when its parent is.
pub proof fn lemma_reached_push(
    parents: Seq<Option<usize>>,
    requested: Set<usize>,
    last: Option<usize>,
    n: usize,
)
    requires
        forall|a: usize| requested.contains(a) ==> a < parents.len(),
        last matches Some(p) ==> p < parents.len(),
        n <= parents.len(),
        parents.len() < usize::MAX,
    ensures
        n < parents.len() ==> reached_in(parents.push(last), requested, n) == reached_in(
            parents,
            requested,
            n,
        ),
        n == parents.len() ==> reached_in(parents.push(last), requested, n) == (last matches Some(p)
            && reached_in(parents, requested, p)),
{
    let after = parents.push(last);
    if n < parents.len() {
        if reached_in(parents, requested, n) {
            let a = choose|a: usize| requested.contains(a) && ancestor_or_self(parents, a, n);
            lemma_ancestor_push(parents, last, a, n);
            assert(ancestor_or_self(after, a, n));
        }
        if reached_in(after, requested, n) {
            let a = choose|a: usize| requested.contains(a) && ancestor_or_self(after, a, n);
            lemma_ancestor_push(parents, last, a, n);
            assert(ancestor_or_self(parents, a, n));
        }
    } else {
        match last {
            Some(p) => {
                if reached_in(parents, requested, p) {
                    let a = choose|a: usize|
                        requested.contains(a) && ancestor_or_self(parents, a, p);
                    lemma_ancestor_push(parents, last, a, p);
                    assert(ancestor_or_self(after, a, n));
                }
                if reached_in(after, requested, n) {
                    let a = choose|a: usize| requested.contains(a) && ancestor_or_self(after, a, n);
                    assert(a != n);
                    lemma_ancestor_push(parents, last, a, p);
                    assert(ancestor_or_self(parents, a, p));
                }
            },
            None => {
                if reached_in(after, requested, n) {
                    let a = choose|a: usize| requested.contains(a) && ancestor_or_self(after, a, n);
                    assert(a != n);
                }
            },
        }
    }
}

/// A poll leaves a status in order, alive as it was and with the children
/// that it had.
pub proof fn lemma_with_waker_ok<W>(status: StatusView<W>, wait: usize, waker: W, next_wait: usize)
    requires
        status.waits_ok(next_wait),
        wait < next_wait,
    ensures
        status.with_waker(wait, waker).waits_ok(next_wait),
        status.with_waker(wait, waker) is Alive <==> status is Alive,
        status.with_waker(wait, waker).children() == status.children(),
        status is Alive ==> status.with_waker(wait, waker).waits().contains(wait),
        status is Alive ==> status.with_waker(wait, waker).wakers()[status.with_waker(
            wait,
            waker,
        ).waits().index_of(wait)] == waker,
{
    if status is Alive {
        let waits = status.waits();
        let after = status.with_waker(wait, waker);
        if waits.contains(wait) {
            let i = waits.index_of(wait);
            assert(0 <= i < waits.len() && waits[i] == wait);
        } else {
            assert(after.waits() == waits.push(wait));
            assert forall|i: int, j: int|
                0 <= i < after.waits().len() && 0 <= j < after.waits().len() && i
                    != j implies after.waits()[i] != after.waits()[j] by {
                if i < waits.len() {
                    assert(waits.contains(waits[i]));
                }
                if j < waits.len() {
                    assert(waits.contains(waits[j]));
                }
            }
            assert(after.waits()[waits.len() as int] == wait);
        }
        assert(after.waits().contains(wait));
        let k = after.waits().index_of(wait);
        assert(0 <= k < after.waits().len() && after.waits()[k] == wait);
        if waits.contains(wait) {
            assert(k == waits.index_of(wait));
        } else {
            if k < waits.len() {
                assert(waits.contains(waits[k]));
            }
        }
    }
}

/// Giving up a wait leaves a status in order, alive as it was and with the
/// children that it had, and the wait no longer recorded.
pub proof fn lemma_without_wait_ok<W>(status: StatusView<W>, wait: usize, next_wait: usize)
    requires
        status.waits_ok(next_wait),
    ensures
        status.without_wait(wait).waits_ok(next_wait),
        status.without_wait(wait) is Alive <==> status is Alive,
        status.without_wait(wait).children() == status.children(),
        !status.without_wait(wait).waits().contains(wait),
{
    if status is Alive {
        let waits = status.waits();
        let after = status.without_wait(wait);
        if waits.contains(wait) {
            let i = waits.index_of(wait);
            assert(0 <= i < waits.len() && waits[i] == wait);
            let rest = waits.remove(i);
            assert forall|a: int, b: int|
                0 <= a < rest.len() && 0 <= b < rest.len() && a != b implies rest[a]
                != rest[b] by {
                let a0 = if a < i { a } else { a + 1 };
                let b0 = if b < i { b } else { b + 1 };
                assert(rest[a] == waits[a0] && rest[b] == waits[b0]);
            }
            assert forall|a: int| 0 <= a < rest.len() implies #[trigger] rest[a] < next_wait by {
                let a0 = if a < i { a } else { a + 1 };
                assert(rest[a] == waits[a0]);
            }
            if rest.contains(wait) {
                let a = choose|a: int| 0 <= a < rest.len() && rest[a] == wait;
                let a0 = if a < i { a } else { a + 1 };
                assert(rest[a] == waits[a0]);
            }
        }
    }
}

/// The empty sequence holds nothing.
pub proof fn lemma_empty_to_multiset<W>()
    ensures
        Seq::<W>::empty().to_multiset() == Multiset::<W>::empty(),
{
    broadcast use {vstd::multiset::group_multiset_axioms, vstd::seq_lib::group_to_multiset_ensures};

    assert(Seq::<W>::empty().to_multiset() =~= Multiset::<W>::empty());
}

impl<W> ContextTreeView<W> {
    /// A child of a context of a subtree is in that subtree.
    pub proof fn lemma_child_in_subtree(self, root: usize, p: usize, c: usize)
        requires
            self.links_ok(),
            self.is_child_of(c, p),
            self.in_subtree(root, p),
        ensures
            self.in_subtree(root, c),
    {
    }

    /// A context of a subtree other than its root has its parent in the
    /// subtree.
    pub proof fn lemma_parent_in_subtree(self, root: usize, n: usize)
        requires
            self.in_subtree(root, n),
            n != root,
        ensures
            self.contains(n),
            self.parent(n) is Some,
            self.is_child_of(n, self.parent(n)->0),
            self.parent(n)->0 < n,
            self.in_subtree(root, self.parent(n)->0),
            root < n,
    {
        lemma_ancestor_le(self.parents, root, n);
    }

    /// Below a cancelled context whose subtree keeps its books, everything
    /// is cancelled.
    pub proof fn lemma_subtree_cancelled(self, root: usize, n: usize)
        requires
            self.links_ok(),
            self.is_cancelled(root),
            forall|m: usize| self.contains(m) && self.in_subtree(root, m) ==> self.node_ok(m),
            self.in_subtree(root, n),
        ensures
            self.is_cancelled(n),
        decreases n,
    {
        if n != root {
            self.lemma_parent_in_subtree(root, n);
            let p = self.parent(n)->0;
            self.lemma_subtree_cancelled(root, p);
            assert(self.node_ok(p));
            assert(self.is_child_of(n, p));
        }
    }

    /// Two forests whose first `k` contexts hold the same wakers have the
    /// same wakers pending there.
    pub proof fn lemma_pending_same(self, other: Self, k: nat)
        requires
            forall|n: usize| n < k ==> self.wakers(n) == other.wakers(n),
        ensures
            self.pending_upto(k) == other.pending_upto(k),
        decreases k,
    {
        if k > 0 {
            self.lemma_pending_same(other, (k - 1) as nat);
            assert(self.wakers((k - 1) as usize) == other.wakers((k - 1) as usize));
        }
    }

    /// Two forests that hold the same wakers everywhere but on context `j`
    /// differ in what is pending by the wakers of `j`.
    pub proof fn lemma_pending_update(self, other: Self, j: usize, k: nat)
        requires
            k <= usize::MAX,
            forall|n: usize| n < k && n != j ==> self.wakers(n) == other.wakers(n),
        ensures
            j < k ==> self.pending_upto(k).add(other.wakers(j).to_multiset())
                == other.pending_upto(k).add(self.wakers(j).to_multiset()),
            j >= k ==> self.pending_upto(k) == other.pending_upto(k),
        decreases k,
    {
        broadcast use vstd::multiset::group_multiset_axioms;

        if k > 0 {
            let k1 = (k - 1) as nat;
            let last = k1 as usize;
            self.lemma_pending_update(other, j, k1);
            assert(self.pending_upto(k) == self.pending_upto(k1).add(
                self.wakers(last).to_multiset(),
            ));
            assert(other.pending_upto(k) == other.pending_upto(k1).add(
                other.wakers(last).to_multiset(),
            ));
            if last != j {
                assert(self.wakers(last) == other.wakers(last));
            }
            if j < k {
                let lhs = self.pending_upto(k).add(other.wakers(j).to_multiset());
                let rhs = other.pending_upto(k).add(self.wakers(j).to_multiset());
                if last != j {
                    let l1 = self.pending_upto(k1).add(other.wakers(j).to_multiset());
                    let r1 = other.pending_upto(k1).add(self.wakers(j).to_multiset());
                    assert(l1 == r1);
                    assert(lhs =~= l1.add(self.wakers(last).to_multiset()));
                    assert(rhs =~= r1.add(self.wakers(last).to_multiset()));
                } else {
                    assert(lhs =~= rhs);
                }
            }
        }
    }

    /// Emptying the wakers of a subtree takes exactly the wakers of that
    /// subtree out of what is pending.
    pub proof fn lemma_pending_split(self, after: Self, root: usize, k: nat)
        requires
            k <= usize::MAX,
            forall|n: usize|
                n < k ==> after.wakers(n) == if self.in_subtree(root, n) {
                    Seq::<W>::empty()
                } else {
                    self.wakers(n)
                },
        ensures
            self.pending_upto(k) == after.pending_upto(k).add(self.subtree_pending_upto(root, k)),
        decreases k,
    {
        broadcast use vstd::multiset::group_multiset_axioms;

        if k > 0 {
            self.lemma_pending_split(after, root, (k - 1) as nat);
            let last = (k - 1) as usize;
            lemma_empty_to_multiset::<W>();
            assert(after.wakers(last) == if self.in_subtree(root, last) {
                Seq::<W>::empty()
            } else {
                self.wakers(last)
            });
            assert(self.pending_upto(k) =~= after.pending_upto(k).add(
                self.subtree_pending_upto(root, k),
            ));
        } else {
            assert(self.pending_upto(k) =~= after.pending_upto(k).add(
                self.subtree_pending_upto(root, k),
            ));
        }
    }

    /// Running the cancellation routine on `ctx` leaves the books of `n` in
    /// order, if they were and `n` is not left recording a cancelled `ctx`.
    pub proof fn lemma_cancel_keeps_books(self, ctx: usize, unlink: bool, n: usize)
        requires
            self.links_ok(),
            self.contains(ctx),
            self.contains(n),
            self.node_ok(n),
            forall|m: usize| self.contains(m) && self.in_subtree(ctx, m) ==> self.node_ok(m),
            unlink || !self.is_child_of(ctx, n) || !self.is_alive(ctx),
        ensures
            books_ok(self.parents, self.cancel_statuses(ctx, unlink), n),
    {
        let after = self.cancel_statuses(ctx, unlink);
        if self.in_subtree(ctx, n) {
            assert(cancelled_at(after, n));
            assert forall|x: usize| #[trigger] child_of(self.parents, x, n) implies cancelled_at(
                after,
                x,
            ) by {
                self.lemma_child_in_subtree(ctx, n, x);
            }
        } else {
            assert forall|x: usize| child_of(self.parents, x, n) implies (self.in_subtree(ctx, x)
                <==> x == ctx) by {
                if self.in_subtree(ctx, x) && x != ctx {
                    self.lemma_parent_in_subtree(ctx, x);
                }
            }
            if alive_at(self.statuses, n) {
                assert(alive_at(after, n));
                assert forall|x: usize|
                    #![trigger records(after, n, x)]
                    #![trigger child_of(self.parents, x, n)]
                    records(after, n, x) <==> (child_of(self.parents, x, n) && alive_at(
                        after,
                        x,
                    )) by {
                    assert(records(self.statuses, n, x) <==> (child_of(self.parents, x, n)
                        && alive_at(self.statuses, x)));
                    if child_of(self.parents, x, n) {
                        assert(self.in_subtree(ctx, x) <==> x == ctx);
                    }
                }
            } else {
                assert(cancelled_at(after, n));
                assert forall|x: usize| #[trigger] child_of(self.parents, x, n) implies cancelled_at(
                    after,
                    x,
                ) by {
                    assert(cancelled_at(self.statuses, x));
                }
            }
        }
    }
}

} // verus!
