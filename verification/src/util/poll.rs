//! The answer of a poll.

use vstd::prelude::*;

verus! {

/// What polling a waitable answers.
#[derive(Clone, Copy, Debug, PartialEq, Eq, Structural)]
pub enum Poll {
    /// The awaited condition holds.
    Ready,
    /// The awaited condition does not hold yet; the waker was recorded.
    Pending,
}

impl Poll {
    /// Whether the answer is [`Poll::Ready`].
    pub fn is_ready(&self) -> (ready: bool)
        ensures
            ready == (*self == Poll::Ready),
    {
        match self {
            Poll::Ready => true,
            Poll::Pending => false,
        }
    }
}

} // verus!
