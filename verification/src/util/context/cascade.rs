//! The states that a cascade passes through, and why it ends where the model
//! says.
//!
//! While the cancellation routine runs on a context, the forest is not well
//! formed: the context is cancelled already, some of its children are not
//! yet. `cascading` says what holds in between.

use crate::util::context::lemmas::{lemma_ancestor_le, lemma_ancestor_trans, lemma_books_frame};
use crate::util::context::model::{
    alive_at, ancestor_or_self, books_ok, cancelled_at, child_of, records, ContextTreeView,
    StatusView,
};
use vstd::prelude::*;

verus! {

/// What holds while the routine that was started on `ctx` in the forest
/// `before` has cancelled `ctx` and the subtrees of the children in `done`.
pub open spec fn cascading<W>(
    before: ContextTreeView<W>,
    cur: ContextTreeView<W>,
    ctx: usize,
    done: Seq<usize>,
) -> bool {
    &&& cur.parents == before.parents
    &&& cur.requested == before.requested
    &&& cur.next_wait == before.next_wait
    &&& cur.statuses.len() == before.statuses.len()
    &&& cancelled_at(cur.statuses, ctx)
    &&& forall|n: usize|
        n < before.parents.len() && !ancestor_or_self(before.parents, ctx, n)
            ==> #[trigger] cur.statuses[n as int] == before.statuses[n as int]
    &&& forall|n: usize| #[trigger]
        cancelled_at(before.statuses, n) ==> cancelled_at(cur.statuses, n)
    &&& forall|m: usize|
        m < before.parents.len() && ancestor_or_self(before.parents, ctx, m) && m != ctx
            ==> #[trigger] books_ok(cur.parents, cur.statuses, m)
    &&& forall|k: int, n: usize|
        0 <= k < done.len() && n < before.parents.len() && #[trigger] ancestor_or_self(
            before.parents,
            done[k],
            n,
        ) ==> cancelled_at(cur.statuses, n)
}

/// The subtree of `ctx` keeps its books.
pub open spec fn subtree_books_ok<W>(view: ContextTreeView<W>, ctx: usize) -> bool {
    forall|m: usize|
        m < view.parents.len() && ancestor_or_self(view.parents, ctx, m) ==> #[trigger] books_ok(
            view.parents,
            view.statuses,
            m,
        )
}

/// Marking an alive context cancelled starts its cascade.
pub proof fn lemma_cascade_start<W>(before: ContextTreeView<W>, cur: ContextTreeView<W>, ctx: usize)
    requires
        before.links_ok(),
        before.is_alive(ctx),
        subtree_books_ok(before, ctx),
        cur.parents == before.parents,
        cur.requested == before.requested,
        cur.next_wait == before.next_wait,
        cur.statuses == before.statuses.update(ctx as int, StatusView::Cancelled),
    ensures
        cascading(before, cur, ctx, Seq::<usize>::empty()),
{
    assert forall|m: usize|
        m < before.parents.len() && ancestor_or_self(before.parents, ctx, m) && m
            != ctx implies #[trigger] books_ok(cur.parents, cur.statuses, m) by {
        assert(books_ok(before.parents, before.statuses, m));
        lemma_ancestor_le(before.parents, ctx, m);
        assert forall|x: usize| child_of(before.parents, x, m) implies x != ctx by {
            if x == ctx {
                assert(m < ctx);
            }
        }
        lemma_books_frame(before.parents, before.statuses, cur.parents, cur.statuses, m);
    }
}

/// A context of the subtree of a child of `ctx` is one of the subtree of
/// `ctx`, and not `ctx` itself.
pub proof fn lemma_under_child(parents: Seq<Option<usize>>, ctx: usize, child: usize, m: usize)
    requires
        child_of(parents, child, ctx),
        ctx < child,
        ancestor_or_self(parents, child, m),
    ensures
        ancestor_or_self(parents, ctx, m),
        m != ctx,
{
    assert(ancestor_or_self(parents, ctx, ctx));
    assert(ancestor_or_self(parents, ctx, child));
    lemma_ancestor_trans(parents, ctx, child, m);
    lemma_ancestor_le(parents, child, m);
}

/// Before the cascade descends into a child, the subtree of that child keeps
/// its books.
pub proof fn lemma_cascade_descend<W>(
    before: ContextTreeView<W>,
    cur: ContextTreeView<W>,
    ctx: usize,
    done: Seq<usize>,
    child: usize,
)
    requires
        before.links_ok(),
        cascading(before, cur, ctx, done),
        child_of(before.parents, child, ctx),
    ensures
        subtree_books_ok(cur, child),
        cur.links_ok(),
{
    assert forall|m: usize|
        m < cur.parents.len() && ancestor_or_self(cur.parents, child, m) implies #[trigger] books_ok(
        cur.parents,
        cur.statuses,
        m,
    ) by {
        lemma_under_child(before.parents, ctx, child, m);
    }
}

/// When the cascade comes back from a child, that child counts as done.
pub proof fn lemma_cascade_step<W>(
    before: ContextTreeView<W>,
    cur: ContextTreeView<W>,
    next: ContextTreeView<W>,
    ctx: usize,
    done: Seq<usize>,
    child: usize,
)
    requires
        before.links_ok(),
        cascading(before, cur, ctx, done),
        child_of(before.parents, child, ctx),
        next.parents == cur.parents,
        next.requested == cur.requested,
        next.next_wait == cur.next_wait,
        next.statuses == cur.cancel_statuses(child, false),
    ensures
        cascading(before, next, ctx, done.push(child)),
{
    let parents = before.parents;
    let len = before.parents.len();
    assert(ctx < child);
    lemma_cascade_descend(before, cur, ctx, done, child);
    assert forall|n: usize| n < len && !ancestor_or_self(parents, ctx, n) implies #[trigger]
        next.statuses[n as int] == before.statuses[n as int] by {
        if ancestor_or_self(parents, child, n) {
            lemma_under_child(parents, ctx, child, n);
        }
        assert(cur.statuses[n as int] == before.statuses[n as int]);
    }
    assert forall|n: usize| #[trigger] cancelled_at(before.statuses, n) implies cancelled_at(
        next.statuses,
        n,
    ) by {
        assert(cancelled_at(cur.statuses, n));
    }
    assert forall|m: usize|
        m < len && ancestor_or_self(parents, ctx, m) && m != ctx implies #[trigger] books_ok(
        next.parents,
        next.statuses,
        m,
    ) by {
        assert(books_ok(cur.parents, cur.statuses, m));
        assert forall|x: usize|
            cur.contains(x) && cur.in_subtree(child, x) implies cur.node_ok(x) by {
            assert(books_ok(cur.parents, cur.statuses, x));
        }
        cur.lemma_cancel_keeps_books(child, false, m);
    }
    let done2 = done.push(child);
    assert forall|k: int, n: usize|
        0 <= k < done2.len() && n < len && #[trigger] ancestor_or_self(
            parents,
            done2[k],
            n,
        ) implies cancelled_at(next.statuses, n) by {
        if k < done.len() {
            assert(done2[k] == done[k]);
            assert(cancelled_at(cur.statuses, n));
        }
    }
}

/// Once every recorded child is done, the whole subtree is cancelled and
/// nothing outside it has changed.
pub proof fn lemma_cascade_end<W>(
    before: ContextTreeView<W>,
    cur: ContextTreeView<W>,
    ctx: usize,
    done: Seq<usize>,
)
    requires
        before.links_ok(),
        before.is_alive(ctx),
        subtree_books_ok(before, ctx),
        cascading(before, cur, ctx, done),
        done.to_set() == before.children(ctx),
    ensures
        cur.statuses == before.cancel_statuses(ctx, false),
{
    let parents = before.parents;
    assert(books_ok(before.parents, before.statuses, ctx));
    assert forall|x: usize| #[trigger] child_of(cur.parents, x, ctx) implies cancelled_at(
        cur.statuses,
        x,
    ) by {
        if alive_at(before.statuses, x) {
            assert(records(before.statuses, ctx, x));
            assert(done.to_set().contains(x));
            assert(done.contains(x));
            let k = choose|k: int| 0 <= k < done.len() && done[k] == x;
            assert(ancestor_or_self(parents, done[k], x));
        } else {
            assert(cancelled_at(before.statuses, x));
        }
    }
    assert(books_ok(cur.parents, cur.statuses, ctx));
    assert forall|m: usize| cur.contains(m) && cur.in_subtree(ctx, m) implies cur.node_ok(m) by {
        if m != ctx {
            assert(books_ok(cur.parents, cur.statuses, m));
        }
    }
    assert forall|n: int| 0 <= n < cur.statuses.len() implies cur.statuses[n]
        == before.cancel_statuses(ctx, false)[n] by {
        let id = n as usize;
        if before.in_subtree(ctx, id) {
            cur.lemma_subtree_cancelled(ctx, id);
        } else {
            assert(cur.statuses[id as int] == before.statuses[id as int]);
        }
    }
    assert(cur.statuses =~= before.cancel_statuses(ctx, false));
}

/// A cancelled context whose subtree keeps its books has nothing left to
/// cancel.
pub proof fn lemma_cancel_again<W>(before: ContextTreeView<W>, ctx: usize, unlink: bool)
    requires
        before.links_ok(),
        before.is_cancelled(ctx),
        subtree_books_ok(before, ctx),
    ensures
        before.cancel_statuses(ctx, unlink) == before.statuses,
{
    assert forall|m: usize| before.contains(m) && before.in_subtree(ctx, m) implies before.node_ok(
        m,
    ) by {
        assert(books_ok(before.parents, before.statuses, m));
    }
    assert forall|n: int| 0 <= n < before.statuses.len() implies before.statuses[n]
        == before.cancel_statuses(ctx, unlink)[n] by {
        let id = n as usize;
        if before.in_subtree(ctx, id) {
            before.lemma_subtree_cancelled(ctx, id);
        }
    }
    assert(before.cancel_statuses(ctx, unlink) =~= before.statuses);
}

/// What holds of the list of the contexts cancelled so far, while the
/// routine that found the list `list0` and the forest `before` has brought
/// them to `list` and `cur`: the list has grown at its end, by the contexts
/// that were alive and are cancelled now, each once.
pub open spec fn listed<W>(
    list0: Seq<usize>,
    list: Seq<usize>,
    before: ContextTreeView<W>,
    cur: ContextTreeView<W>,
) -> bool {
    &&& list.no_duplicates()
    &&& list0.len() <= list.len()
    &&& forall|i: int| 0 <= i < list0.len() ==> list[i] == list0[i]
    &&& forall|n: usize| #[trigger]
        list.contains(n) <==> list0.contains(n) || (before.is_alive(n) && cur.is_cancelled(n))
}

/// A list without `x` and without anything twice can take `x` at its end.
pub proof fn lemma_push_fresh(list: Seq<usize>, x: usize)
    requires
        list.no_duplicates(),
        !list.contains(x),
    ensures
        list.push(x).no_duplicates(),
        forall|n: usize| #[trigger] list.push(x).contains(n) <==> list.contains(n) || n == x,
{
    let more = list.push(x);
    assert forall|i: int, j: int| 0 <= i < more.len() && 0 <= j < more.len() && i != j implies more[i]
        != more[j] by {
        if i < list.len() {
            assert(list.contains(list[i]));
        }
        if j < list.len() {
            assert(list.contains(list[j]));
        }
    }
    assert forall|n: usize| #[trigger] more.contains(n) <==> list.contains(n) || n == x by {
        if more.contains(n) {
            let i = choose|i: int| 0 <= i < more.len() && more[i] == n;
            if i < list.len() {
                assert(list[i] == n);
            }
        }
        if list.contains(n) {
            let i = choose|i: int| 0 <= i < list.len() && list[i] == n;
            assert(more[i] == n);
        }
        if n == x {
            assert(more[list.len() as int] == x);
        }
    }
}

/// The context that the routine marks first is the first that it lists.
pub proof fn lemma_list_start<W>(
    list0: Seq<usize>,
    before: ContextTreeView<W>,
    cur: ContextTreeView<W>,
    ctx: usize,
)
    requires
        list0.no_duplicates(),
        forall|n: usize| list0.contains(n) ==> !before.is_alive(n),
        before.is_alive(ctx),
        cur.statuses == before.statuses.update(ctx as int, StatusView::Cancelled),
    ensures
        listed(list0, list0.push(ctx), before, cur),
{
    lemma_push_fresh(list0, ctx);
    let list = list0.push(ctx);
    assert forall|n: usize| #[trigger]
        list.contains(n) <==> list0.contains(n) || (before.is_alive(n) && cur.is_cancelled(n)) by {
        if n != ctx && n < before.statuses.len() {
            assert(cur.statuses[n as int] == before.statuses[n as int]);
        }
    }
}

/// When the cascade comes back from a child, the list has grown by what was
/// alive below the child.
pub proof fn lemma_list_step<W>(
    list0: Seq<usize>,
    list: Seq<usize>,
    longer: Seq<usize>,
    before: ContextTreeView<W>,
    cur: ContextTreeView<W>,
    next: ContextTreeView<W>,
    child: usize,
)
    requires
        listed(list0, list, before, cur),
        cur.statuses.len() == before.statuses.len(),
        forall|n: usize| #[trigger]
            cancelled_at(before.statuses, n) ==> cancelled_at(cur.statuses, n),
        next.statuses == cur.cancel_statuses(child, false),
        longer.no_duplicates(),
        list.len() <= longer.len(),
        forall|i: int| 0 <= i < list.len() ==> longer[i] == list[i],
        forall|n: usize| #[trigger]
            longer.contains(n) <==> list.contains(n) || (cur.is_alive(n) && cur.in_subtree(
                child,
                n,
            )),
    ensures
        listed(list0, longer, before, next),
{
    assert forall|n: usize| #[trigger]
        longer.contains(n) <==> list0.contains(n) || (before.is_alive(n) && next.is_cancelled(
            n,
        )) by {
        assert(list.contains(n) <==> list0.contains(n) || (before.is_alive(n) && cur.is_cancelled(
            n,
        )));
        if n < before.statuses.len() {
            assert(cancelled_at(before.statuses, n) ==> cancelled_at(cur.statuses, n));
            assert(next.statuses[n as int] == cur.cancel_statuses(child, false)[n as int]);
        }
    }
}

/// Once the cascade has ended, the list has grown by what was alive in the
/// subtree.
pub proof fn lemma_list_end<W>(
    list0: Seq<usize>,
    list: Seq<usize>,
    before: ContextTreeView<W>,
    cur: ContextTreeView<W>,
    ctx: usize,
)
    requires
        listed(list0, list, before, cur),
        before.contains(ctx),
        cur.statuses == before.cancel_statuses(ctx, false),
    ensures
        forall|n: usize| #[trigger]
            list.contains(n) <==> list0.contains(n) || (before.is_alive(n) && before.in_subtree(
                ctx,
                n,
            )),
{
    assert forall|n: usize| #[trigger]
        list.contains(n) <==> list0.contains(n) || (before.is_alive(n) && before.in_subtree(
            ctx,
            n,
        )) by {
        assert(list.contains(n) <==> list0.contains(n) || (before.is_alive(n) && cur.is_cancelled(
            n,
        )));
        if n < before.statuses.len() {
            assert(cur.statuses[n as int] == before.cancel_statuses(ctx, false)[n as int]);
        }
    }
}

} // verus!
