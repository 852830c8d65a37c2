use vstd::prelude::*;

verus! {

/// The externally observed lifecycle of one asynchronous operation, as a
/// polling consumer sees it. `Succeeded` and `Failed` are terminal: they
/// carry the outcome of a completed operation. `Empty` and `InFlight` are
/// not.
pub enum PromiseState<T, E> {
    /// No operation has ever been started, or the last result was
    /// explicitly superseded.
    Empty,
    /// An operation has been started and has not yet produced a result.
    InFlight,
    /// The most recently completed operation's value.
    Succeeded(T),
    /// The most recently completed operation's error.
    Failed(E),
}

impl<T, E> PromiseState<T, E> {
    /// A state is terminal when it carries the outcome of a completed
    /// operation.
    pub open spec fn is_terminal(self) -> bool {
        self is Succeeded || self is Failed
    }

    /// Whether this state is terminal.
    pub fn is_done(&self) -> (done: bool)
        ensures
            done == self.is_terminal(),
    {
        matches!(self, PromiseState::Succeeded(_) | PromiseState::Failed(_))
    }

    /// Installs `new` as the current state and hands the previous one back.
    pub fn replace(&mut self, new: Self) -> (prev: Self)
        ensures
            *final(self) == new,
            prev == *old(self),
    {
        let mut next = new;
        core::mem::swap(self, &mut next);
        next
    }

    /// The merge rule as a function: the candidate wins exactly when it is
    /// terminal or the current state is not; otherwise the current state
    /// stays.
    pub open spec fn merged(self, candidate: Self) -> Self {
        if candidate.is_terminal() || !self.is_terminal() {
            candidate
        } else {
            self
        }
    }

    /// The merge rule of the bridge: adopt `candidate` exactly when it is
    /// terminal or the current state is not. Once a terminal result is held,
    /// a merely pending candidate never blanks it; the old result stays
    /// until the next operation itself completes. Returns whether the
    /// replacement happened.
    pub fn merge(&mut self, candidate: Self) -> (replaced: bool)
        ensures
            *final(self) == old(self).merged(candidate),
            replaced == (candidate.is_terminal() || !old(self).is_terminal()),
            replaced ==> *final(self) == candidate,
            !replaced ==> *final(self) == *old(self),
    {
        if candidate.is_done() || !self.is_done() {
            self.replace(candidate);
            true
        } else {
            false
        }
    }

    /// Mutable access to the value of a `Succeeded` state, if any.
    pub fn get_mut(&mut self) -> (r: Option<&mut T>)
        ensures
            match r {
                Option::Some(v) => {
                    &&& *old(self) is Succeeded
                    &&& *v == old(self)->Succeeded_0
                    &&& *final(self) == PromiseState::<T, E>::Succeeded(*final(v))
                },
                Option::None => {
                    &&& !(*old(self) is Succeeded)
                    &&& *final(self) == *old(self)
                },
            },
    {
        match self {
            PromiseState::Succeeded(val) => Option::Some(val),
            _ => Option::None,
        }
    }
}

impl<T, E> Default for PromiseState<T, E> {
    /// The initial state: nothing started yet.
    fn default() -> (d: Self)
        ensures
            d is Empty,
    {
        PromiseState::Empty
    }
}

} // verus!
