//! The wait group as concurrent tasks see it.
//!
//! Shared between tasks, a wait group is a counter that is changed in one
//! indivisible step, and a waiter slot behind a lock. Giving a permit back
//! takes two steps: the counter is decremented, and whoever brought it to
//! zero empties the slot and wakes the waiter. Polling takes two steps too: a
//! look at the counter without the lock, and, if work is outstanding, a
//! second look under the lock before the waker is left in the slot.
//!
//! Other tasks may run between the steps of either, and the counter may
//! change while the waiter holds the lock. This module holds the decision of
//! each step, the model of their interleavings, and the proof that no
//! interleaving loses a waiter.

use crate::util::poll::Poll;
use vstd::prelude::*;

verus! {

/// The first look of a poll, without the lock: whether the group is ready.
pub fn fast_check(count: usize) -> (ready: bool)
    ensures
        ready == (count == 0),
{
    count == 0
}

/// The second look of a poll, under the lock that guards `slot`: with no
/// work outstanding the group is ready; otherwise `waker` takes the slot,
/// replacing whatever was there.
pub fn locked_check<W>(count: usize, slot: &mut Option<W>, waker: W) -> (res: Poll)
    ensures
        res == Poll::Ready <==> count == 0,
        res == Poll::Pending <==> count > 0,
        *final(slot) == if count == 0 {
            *old(slot)
        } else {
            Some(waker)
        },
{
    if count == 0 {
        Poll::Ready
    } else {
        *slot = Some(waker);
        Poll::Pending
    }
}

/// Whether the task that decremented the counter from `previous` is the one
/// that has to empty the slot: the one that gave the last permit back.
pub fn must_notify(previous: usize) -> (last: bool)
    ensures
        last == (previous == 1),
{
    previous == 1
}

/// Empties the slot, under its lock, and returns the waker that was there
/// for the caller to wake.
pub fn notify<W>(slot: &mut Option<W>) -> (woken: Option<W>)
    ensures
        woken == *old(slot),
        *final(slot) is None,
{
    slot.take()
}

/// One indivisible step of some task.
pub enum ProtocolStep<W> {
    /// A permit is acquired or duplicated: the counter goes up.
    Acquire,
    /// A permit is given back: the counter goes down.
    Decrement,
    /// A task that brought the counter to zero takes the lock, empties the
    /// slot and lets the lock go.
    Notify,
    /// The waiter looks at the counter without the lock.
    FastCheck,
    /// The waiter takes the lock and looks at the counter. With no work
    /// outstanding it lets the lock go; otherwise it keeps it, about to leave
    /// this waker.
    LockedLook(W),
    /// The waiter leaves its waker in the slot and lets the lock go.
    LockedLeave,
}

/// The state that the tasks share, and what the model remembers of them.
pub struct ProtocolView<W> {
    /// The counter of outstanding permits.
    pub counter: nat,
    /// The waiter slot.
    pub slot: Option<W>,
    /// The waker of the waiter that holds the lock and is about to leave it
    /// in the slot, if there is one.
    pub holding: Option<W>,
    /// How many tasks have brought the counter to zero and have yet to empty
    /// the slot.
    pub notifying: nat,
    /// The wakers handed out for waking so far.
    pub woken: Seq<W>,
    /// The waker that the waiter left in the slot last, if it ever left one.
    pub left: Option<W>,
}

impl<W> ProtocolView<W> {
    /// The state of a group that nobody has touched.
    pub open spec fn initial() -> Self {
        ProtocolView {
            counter: 0,
            slot: None,
            holding: None,
            notifying: 0,
            woken: Seq::empty(),
            left: None,
        }
    }

    /// Whether `step` can happen: only a permit that exists is given back,
    /// only a task that brought the counter to zero empties the slot, and
    /// the lock is taken only when it is free.
    pub open spec fn enabled(self, step: ProtocolStep<W>) -> bool {
        match step {
            ProtocolStep::Acquire => true,
            ProtocolStep::Decrement => self.counter > 0,
            ProtocolStep::Notify => self.notifying > 0 && self.holding is None,
            ProtocolStep::FastCheck => true,
            ProtocolStep::LockedLook(_) => self.holding is None,
            ProtocolStep::LockedLeave => self.holding is Some,
        }
    }

    /// The state after `step`.
    pub open spec fn step(self, step: ProtocolStep<W>) -> Self {
        match step {
            ProtocolStep::Acquire => ProtocolView { counter: self.counter + 1, ..self },
            ProtocolStep::Decrement => ProtocolView {
                counter: (self.counter - 1) as nat,
                notifying: if self.counter == 1 {
                    self.notifying + 1
                } else {
                    self.notifying
                },
                ..self
            },
            ProtocolStep::Notify => ProtocolView {
                slot: None,
                notifying: (self.notifying - 1) as nat,
                woken: match self.slot {
                    Some(waker) => self.woken.push(waker),
                    None => self.woken,
                },
                ..self
            },
            ProtocolStep::FastCheck => self,
            ProtocolStep::LockedLook(waker) => if self.counter == 0 {
                self
            } else {
                ProtocolView { holding: Some(waker), ..self }
            },
            ProtocolStep::LockedLeave => ProtocolView {
                slot: self.holding,
                holding: None,
                left: self.holding,
                ..self
            },
        }
    }

    /// Whether a look at the counter in this state finds the group ready.
    pub open spec fn ready(self) -> bool {
        self.counter == 0
    }

    /// A waker is only ever in the slot, or on its way there, while a permit
    /// is outstanding or while a task is on its way to empty the slot; and
    /// the waker that was left last is still in the slot, or it is the one
    /// that was handed out last.
    pub open spec fn inv(self) -> bool {
        &&& (self.slot is Some || self.holding is Some) ==> self.counter > 0 || self.notifying > 0
        &&& match self.left {
            None => self.slot is None,
            Some(waker) => self.slot == Some(waker) || (self.slot is None && self.woken.len() > 0
                && self.woken.last() == waker),
        }
    }

    /// At rest: no task stands between two steps of what it began.
    pub open spec fn at_rest(self) -> bool {
        self.notifying == 0 && self.holding is None
    }

    /// The state that `steps`, taken in this order by whatever tasks, make of
    /// the initial one.
    pub open spec fn run(steps: Seq<ProtocolStep<W>>) -> Self
        decreases steps.len(),
    {
        if steps.len() == 0 {
            Self::initial()
        } else {
            Self::run(steps.drop_last()).step(steps.last())
        }
    }

    /// Whether each of `steps` can happen when its turn comes.
    pub open spec fn valid(steps: Seq<ProtocolStep<W>>) -> bool
        decreases steps.len(),
    {
        steps.len() == 0 || (Self::valid(steps.drop_last()) && Self::run(
            steps.drop_last(),
        ).enabled(steps.last()))
    }

    /// How many permits `steps` acquire.
    pub open spec fn acquired(steps: Seq<ProtocolStep<W>>) -> nat
        decreases steps.len(),
    {
        if steps.len() == 0 {
            0
        } else if steps.last() is Acquire {
            Self::acquired(steps.drop_last()) + 1
        } else {
            Self::acquired(steps.drop_last())
        }
    }

    /// How many permits `steps` give back.
    pub open spec fn released(steps: Seq<ProtocolStep<W>>) -> nat
        decreases steps.len(),
    {
        if steps.len() == 0 {
            0
        } else if steps.last() is Decrement {
            Self::released(steps.drop_last()) + 1
        } else {
            Self::released(steps.drop_last())
        }
    }

    /// No step breaks the invariant.
    pub proof fn law_step_inv(self, step: ProtocolStep<W>)
        requires
            self.inv(),
            self.enabled(step),
        ensures
            self.step(step).inv(),
    {
    }

    /// However the steps of the tasks interleave: the counter is the number
    /// of permits that are outstanding, so that a look at it finds the group
    /// ready exactly when none is; and a waker is in the slot only while a
    /// permit is outstanding or a task is about to empty the slot.
    pub proof fn law_interleavings(steps: Seq<ProtocolStep<W>>)
        requires
            Self::valid(steps),
        ensures
            Self::run(steps).inv(),
            Self::released(steps) <= Self::acquired(steps),
            Self::run(steps).counter == Self::acquired(steps) - Self::released(steps),
            Self::run(steps).ready() <==> Self::acquired(steps) == Self::released(steps),
        decreases steps.len(),
    {
        if steps.len() > 0 {
            Self::law_interleavings(steps.drop_last());
            Self::run(steps.drop_last()).law_step_inv(steps.last());
        }
    }

    /// No waiter is lost: once every permit is given back and every task
    /// has finished what it began, the slot is empty, and the waker that the
    /// waiter left there last has been handed out for waking.
    pub proof fn law_no_lost_waiter(steps: Seq<ProtocolStep<W>>)
        requires
            Self::valid(steps),
            Self::acquired(steps) == Self::released(steps),
            Self::run(steps).at_rest(),
        ensures
            Self::run(steps).slot is None,
            Self::run(steps).left matches Some(waker) ==> Self::run(steps).woken.len() > 0
                && Self::run(steps).woken.last() == waker,
    {
        Self::law_interleavings(steps);
    }

    /// The step that empties a slot hands out the waker that was in it, and
    /// no other step hands out any.
    pub proof fn law_woken_by_notify(self, step: ProtocolStep<W>)
        requires
            self.enabled(step),
        ensures
            self.step(step).woken == if step is Notify && self.slot is Some {
                self.woken.push(self.slot->0)
            } else {
                self.woken
            },
    {
    }
}

} // verus!
