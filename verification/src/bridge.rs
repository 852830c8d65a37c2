use vstd::prelude::*;
use poll_promise::Promise;
use crate::promise_state::PromiseState;
use crate::task::promise_ready;
use crate::task::promise_take;

verus! {

/// Tracks the lifecycle of one logical asynchronous operation for a
/// single-threaded polling consumer. The consumer installs a task handle
/// with `start`, polls once per cycle with `tick`, and renders from
/// `current`. `tick` applies the stale-while-revalidate merge rule of
/// `PromiseState::merge`: a terminal result stays visible until the next
/// operation itself reaches a terminal state.
#[verifier::reject_recursive_types(V)]
#[verifier::reject_recursive_types(E)]
pub struct Bridge<V: Send + 'static, E: Send + 'static> {
    results: PromiseState<V, E>,
    promise: Option<Promise<Result<V, E>>>,
}

impl<V: Send + 'static, E: Send + 'static> Bridge<V, E> {
    /// The state last adopted by `tick`, which `current` exposes.
    pub closed spec fn state(self) -> PromiseState<V, E> {
        self.results
    }

    /// The task handle currently installed for polling, if any. The handle
    /// itself is opaque; the view serves to pin which handle is stored.
    pub closed spec fn stored_task(self) -> Option<Promise<Result<V, E>>> {
        self.promise
    }

    /// Whether a task handle is installed for polling.
    pub open spec fn has_task(self) -> bool {
        self.stored_task() is Some
    }

    /// A fresh bridge: nothing started, nothing to poll.
    pub fn new() -> (b: Self)
        ensures
            b.state() is Empty,
            !b.has_task(),
    {
        Bridge { results: PromiseState::Empty, promise: Option::None }
    }

    /// Read-only access to the bridge state, for rendering.
    pub fn current(&self) -> (r: &PromiseState<V, E>)
        ensures
            *r == self.state(),
    {
        &self.results
    }

    /// Installs a new task handle as the operation in flight. The observed
    /// state does not change; the handle is only reflected once the next
    /// `tick` is performed. A previously stored handle is discarded without
    /// being polled again.
    ///
    /// Obligation on the caller: the task behind `task` must eventually
    /// deliver its `Result`. poll_promise panics when a handle is polled
    /// after its sender was dropped without sending, so a task torn down
    /// mid-flight would crash `tick`. No contract can carry this: the
    /// condition lives inside the opaque handle, and the crate offers no
    /// non-panicking probe.
    pub fn start(&mut self, task: Promise<Result<V, E>>)
        ensures
            final(self).state() == old(self).state(),
            final(self).stored_task() == Option::Some(task),
    {
        self.promise = Option::Some(task);
    }

    /// Performed once per consumer cycle. Computes a candidate state from
    /// the stored handle (`Empty` if none, `InFlight` if not ready, the
    /// terminal outcome if ready, consuming the handle), then merges it into
    /// the current state under the stale-while-revalidate rule. Returns
    /// whether the displayed state was replaced, so the consumer can reset
    /// dependent view state exactly then.
    pub fn tick(&mut self) -> (replaced: bool)
        ensures
            // A pending candidate never displaces a terminal state, and
            // where nothing is replaced, the stored handle is untouched.
            !replaced ==> final(self).state() == old(self).state()
                && old(self).state().is_terminal()
                && final(self).stored_task() == old(self).stored_task(),
            // A terminal state is only ever replaced by a terminal one.
            replaced && old(self).state().is_terminal()
                ==> final(self).state().is_terminal(),
            // With nothing to poll, a terminal state stays as it is.
            old(self).state().is_terminal() && !old(self).has_task() ==> !replaced,
            // A non-terminal state always yields to the candidate.
            !old(self).state().is_terminal() ==> replaced,
            // With no handle stored, the candidate is `Empty` and no handle
            // appears from nowhere.
            replaced && !old(self).has_task() ==> final(self).state() is Empty,
            !old(self).has_task() ==> final(self).stored_task() == old(self).stored_task(),
            // With a handle stored, a non-terminal candidate is `InFlight`
            // and that same handle stays for the next cycle.
            replaced && old(self).has_task() && !final(self).state().is_terminal()
                ==> final(self).state() is InFlight
                && final(self).stored_task() == old(self).stored_task(),
            // A terminal candidate is always adopted and its handle is
            // consumed: it cannot be polled again.
            final(self).state().is_terminal() && replaced ==> !final(self).has_task(),
    {
        let candidate: PromiseState<V, E> = if self.promise.is_some() {
            let is_ready = promise_ready(self.promise.as_ref().unwrap());
            if is_ready {
                let p = self.promise.take().unwrap();
                match promise_take(p) {
                    Result::Ok(val) => PromiseState::Succeeded(val),
                    Result::Err(e) => PromiseState::Failed(e),
                }
            } else {
                PromiseState::InFlight
            }
        } else {
            PromiseState::Empty
        };
        self.results.merge(candidate)
    }
}

impl<V: Send + 'static, E: Send + 'static> Default for Bridge<V, E> {
    /// Same as `new`: nothing started, nothing to poll.
    fn default() -> (b: Self)
        ensures
            b.state() is Empty,
            !b.has_task(),
    {
        Bridge::new()
    }
}

} // verus!
