//! A wait group: a counter of outstanding permits with a single waiter slot.
//!
//! [`WaitGroup`] is the group as one task sees it: every operation is done
//! in one piece, and the waker that [`WaitGroupPermit::release`] hands back
//! is the caller's to wake. Tasks that share a group either guard this value
//! with a lock, or keep the counter outside the lock and take the steps of
//! [`protocol`] one by one; the laws below say that both come to the same.

pub mod protocol;

use crate::util::poll::Poll;
use crate::util::wait_group::protocol::{
    fast_check, locked_check, must_notify, notify, ProtocolStep, ProtocolView,
};
use vstd::prelude::*;

verus! {

/// The abstract state of a wait group.
pub struct WaitGroupView<W> {
    /// The identity of the group: what tells it from every other group.
    pub id: int,
    /// How many permits were handed out so far, which is the number that
    /// the next one gets.
    pub issued: nat,
    /// The numbers of the permits that are alive.
    pub live: Set<nat>,
    /// How many permits are alive.
    pub outstanding: nat,
    /// The waker of the task that waits for the group, if one is registered.
    pub waiter: Option<W>,
}

impl<W> WaitGroupView<W> {
    /// The group with the identity `id` that nobody has touched: no permit,
    /// no waiter.
    pub open spec fn empty(id: int) -> Self {
        WaitGroupView { id, issued: 0, live: Set::empty(), outstanding: 0, waiter: None }
    }

    /// The counter is the number of the permits that are alive, each of
    /// which was handed out by this group; and a waiter is only ever left
    /// registered while work is outstanding.
    pub open spec fn inv(self) -> bool {
        &&& self.live.finite()
        &&& self.live.len() == self.outstanding
        &&& forall|permit: nat| self.live.contains(permit) ==> permit < self.issued
        &&& self.waiter is Some ==> self.outstanding > 0
    }

    /// Whether awaiting the group resolves in this state.
    pub open spec fn ready(self) -> bool {
        self.outstanding == 0
    }

    /// The state after one more permit was handed out: it gets the next
    /// number and is alive.
    pub open spec fn acquire(self) -> Self {
        WaitGroupView {
            issued: self.issued + 1,
            live: self.live.insert(self.issued),
            outstanding: self.outstanding + 1,
            ..self
        }
    }

    /// The state after the permit with the number `permit` was given back.
    pub open spec fn release(self, permit: nat) -> Self {
        WaitGroupView {
            live: self.live.remove(permit),
            outstanding: (self.outstanding - 1) as nat,
            waiter: if self.outstanding == 1 {
                None
            } else {
                self.waiter
            },
            ..self
        }
    }

    /// The waker that giving back a permit hands out: the registered one, if
    /// the permit was the last.
    pub open spec fn released_waker(self) -> Option<W> {
        if self.outstanding == 1 {
            self.waiter
        } else {
            None
        }
    }

    /// The state after a poll that brought `waker` along.
    pub open spec fn poll(self, waker: W) -> Self {
        if self.outstanding == 0 {
            self
        } else {
            WaitGroupView { waiter: Some(waker), ..self }
        }
    }
}

impl<W> WaitGroupView<W> {
    /// This state as the tasks that share the group see it while none of
    /// them stands between two steps; `woken` are the wakers handed out so
    /// far, `left` is the waker that the waiter left last.
    pub open spec fn shared(self, woken: Seq<W>, left: Option<W>) -> ProtocolView<W> {
        ProtocolView {
            counter: self.outstanding,
            slot: self.waiter,
            holding: None,
            notifying: 0,
            woken,
            left,
        }
    }

    /// Acquiring a permit is one step of the protocol.
    pub proof fn law_acquire_steps(self, woken: Seq<W>, left: Option<W>)
        ensures
            self.acquire().shared(woken, left) == self.shared(woken, left).step(
                ProtocolStep::Acquire,
            ),
    {
    }

    /// Giving a permit back is the decrement and, for the last permit, the
    /// emptying of the slot, with nothing in between.
    pub proof fn law_release_steps(self, permit: nat, woken: Seq<W>, left: Option<W>)
        requires
            self.outstanding > 0,
        ensures
            self.shared(woken, left).enabled(ProtocolStep::Decrement),
            self.outstanding > 1 ==> self.release(permit).shared(woken, left) == self.shared(
                woken,
                left,
            ).step(ProtocolStep::Decrement),
            self.outstanding == 1 ==> self.shared(woken, left).step(
                ProtocolStep::Decrement,
            ).enabled(ProtocolStep::Notify) && self.release(permit).shared(
                match self.released_waker() {
                    Some(waker) => woken.push(waker),
                    None => woken,
                },
                left,
            ) == self.shared(woken, left).step(ProtocolStep::Decrement).step(ProtocolStep::Notify),
    {
    }

    /// A poll is the look without the lock and, if work is outstanding, the
    /// look under the lock and the leaving of the waker, with nothing in
    /// between.
    pub proof fn law_poll_steps(self, waker: W, woken: Seq<W>, left: Option<W>)
        ensures
            self.ready() ==> self.poll(waker).shared(woken, left) == self.shared(woken, left).step(
                ProtocolStep::FastCheck,
            ),
            !self.ready() ==> self.poll(waker).shared(woken, Some(waker)) == self.shared(
                woken,
                left,
            ).step(ProtocolStep::FastCheck).step(ProtocolStep::LockedLook(waker)).step(
                ProtocolStep::LockedLeave,
            ),
    {
    }

    /// Whatever is done to a group in a state that meets the invariant
    /// leaves it in one that does. A permit that is handed out is a new one,
    /// and the permits that were alive stay so until they are given back.
    pub proof fn law_inv_kept(self, waker: W, permit: nat)
        requires
            self.inv(),
        ensures
            self.acquire().inv(),
            !self.live.contains(self.issued),
            self.acquire().live.contains(self.issued),
            self.live.contains(permit) ==> self.acquire().live.contains(permit),
            self.live.contains(permit) ==> self.outstanding > 0 && self.release(permit).inv()
                && !self.release(permit).live.contains(permit),
            self.poll(waker).inv(),
            self.poll(waker).outstanding == self.outstanding,
            self.poll(waker).live == self.live,
            self.outstanding > 0 ==> self.poll(waker).waiter == Some(waker),
    {
        broadcast use vstd::set::group_set_axioms;

        if self.live.contains(self.issued) {
            assert(self.issued < self.issued);
        }
        if self.live.contains(permit) {
            if self.outstanding == 0 {
                assert(self.live =~= Set::<nat>::empty()) by {
                    vstd::set_lib::lemma_set_empty_equivalency_len(self.live);
                }
            }
        }
    }

    /// The last permit that is given back hands out the waiter, and only the
    /// last one does: the waiter is woken once, and not before all work is
    /// done.
    pub proof fn law_woken_by_last(self, permit: nat)
        requires
            self.inv(),
            self.live.contains(permit),
        ensures
            self.released_waker() is Some <==> (self.live == set![permit] && self.waiter is Some),
            self.released_waker() is Some ==> self.release(permit).ready(),
            self.release(permit).ready() ==> self.release(permit).waiter is None
                && self.release(permit).live == Set::<nat>::empty(),
    {
        broadcast use vstd::set::group_set_axioms;

        self.law_inv_kept(arbitrary(), permit);
        if self.outstanding == 1 {
            assert(self.live.remove(permit).len() == 0);
            vstd::set_lib::lemma_set_empty_equivalency_len(self.live.remove(permit));
            assert(self.live =~= set![permit]);
        }
        if self.live == set![permit] {
            assert(self.live.remove(permit) =~= Set::<nat>::empty());
        }
        if self.release(permit).ready() {
            vstd::set_lib::lemma_set_empty_equivalency_len(self.live.remove(permit));
            assert(self.release(permit).live =~= Set::<nat>::empty());
        }
    }
}

/// A counter of outstanding permits plus at most one registered waker.
pub struct WaitGroup<W> {
    task_num: usize,
    waker: Option<W>,
    id: Ghost<int>,
    issued: Ghost<nat>,
    live: Ghost<Set<nat>>,
}

/// One unit of work that must complete before the group resolves.
///
/// A permit is neither `Clone` nor `Copy`: it is made by
/// [`WaitGroup::new_permit`] or [`WaitGroupPermit::clone`] and consumed by
/// [`WaitGroupPermit::release`]. It names the group that it is of and its
/// own number there; both are known from the call that made it, and from
/// nothing else.
pub struct WaitGroupPermit {
    group: Ghost<int>,
    number: Ghost<nat>,
}

impl<W> View for WaitGroup<W> {
    type V = WaitGroupView<W>;

    closed spec fn view(&self) -> WaitGroupView<W> {
        WaitGroupView {
            id: self.id@,
            issued: self.issued@,
            live: self.live@,
            outstanding: self.task_num as nat,
            waiter: self.waker,
        }
    }
}

impl<W> WaitGroup<W> {
    /// The invariant of a group: its view's invariant.
    pub open spec fn wf(&self) -> bool {
        self@.inv()
    }

    /// A group with no permit and no waiter. Of its identity nothing is
    /// known but that the group keeps it.
    pub fn new() -> (group: Self)
        ensures
            group@ == WaitGroupView::<W>::empty(group@.id),
            group.wf(),
    {
        WaitGroup {
            task_num: 0,
            waker: None,
            id: Ghost(arbitrary()),
            issued: Ghost(0),
            live: Ghost(Set::empty()),
        }
    }

    /// The number of permits that are alive.
    pub fn task_num(&self) -> (n: usize)
        ensures
            n == self@.outstanding,
    {
        self.task_num
    }

    /// Hands out a permit of this group and counts it.
    pub fn new_permit(&mut self) -> (permit: WaitGroupPermit)
        requires
            old(self).wf(),
            old(self)@.outstanding < usize::MAX,
        ensures
            final(self)@ == old(self)@.acquire(),
            final(self).wf(),
            permit.is_of(final(self)@),
            permit.number() == old(self)@.issued,
    {
        proof {
            old(self)@.law_inv_kept(arbitrary(), 0);
        }
        let permit = WaitGroupPermit { group: Ghost(self.id@), number: Ghost(self.issued@) };
        self.task_num = self.task_num + 1;
        self.live = Ghost(self.live@.insert(self.issued@));
        self.issued = Ghost(self.issued@ + 1);
        permit
    }

    /// Polls the group for a waiting task that brought `waker`.
    ///
    /// With no permit outstanding the group is ready and stays as it was.
    /// Otherwise `waker` takes the waiter slot, replacing whatever was there.
    pub fn poll(&mut self, waker: W) -> (res: Poll)
        requires
            old(self).wf(),
        ensures
            final(self)@ == old(self)@.poll(waker),
            res == Poll::Ready <==> old(self)@.ready(),
            res == Poll::Pending <==> !old(self)@.ready(),
            final(self).wf(),
    {
        if fast_check(self.task_num) {
            Poll::Ready
        } else {
            locked_check(self.task_num, &mut self.waker, waker)
        }
    }
}

impl<W> Default for WaitGroup<W> {
    /// A group with no permit and no waiter.
    fn default() -> (group: Self)
        ensures
            group@ == WaitGroupView::<W>::empty(group@.id),
            group.wf(),
    {
        WaitGroup::new()
    }
}

impl WaitGroupPermit {
    /// The identity of the group that the permit is of.
    pub closed spec fn group(&self) -> int {
        self.group@
    }

    /// The number of the permit in its group.
    pub closed spec fn number(&self) -> nat {
        self.number@
    }

    /// Whether the permit is an alive permit of the group in the state
    /// `group`.
    pub open spec fn is_of<W>(&self, group: WaitGroupView<W>) -> bool {
        self.group() == group.id && group.live.contains(self.number())
    }

    /// Acquires another permit on `group`, which is the group that this
    /// permit is of. This permit stays alive.
    pub fn clone<W>(&self, group: &mut WaitGroup<W>) -> (permit: WaitGroupPermit)
        requires
            old(group).wf(),
            self.is_of(old(group)@),
            old(group)@.outstanding < usize::MAX,
        ensures
            final(group)@ == old(group)@.acquire(),
            final(group).wf(),
            permit.is_of(final(group)@),
            permit.number() == old(group)@.issued,
            permit.number() != self.number(),
            self.is_of(final(group)@),
    {
        proof {
            old(group)@.law_inv_kept(arbitrary(), self.number());
        }
        group.new_permit()
    }

    /// Gives the permit back to `group`, which is the group that it is of.
    /// When it was the last one, the waiter slot is emptied and its waker
    /// returned, for the caller to wake.
    pub fn release<W>(self, group: &mut WaitGroup<W>) -> (woken: Option<W>)
        requires
            old(group).wf(),
            self.is_of(old(group)@),
        ensures
            final(group)@ == old(group)@.release(self.number()),
            woken == old(group)@.released_waker(),
            final(group).wf(),
            !final(group)@.live.contains(self.number()),
    {
        proof {
            old(group)@.law_inv_kept(arbitrary(), self.number());
        }
        let previous: usize = group.task_num;
        group.task_num = previous - 1;
        group.live = Ghost(group.live@.remove(self.number@));
        if must_notify(previous) {
            notify(&mut group.waker)
        } else {
            None
        }
    }
}

} // verus!
