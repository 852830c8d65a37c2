use vstd::prelude::*;
use poll_promise::Promise;

verus! {

/// Declares poll_promise's task handle so it can stand in signatures and
/// fields. A handle is opaque: an in-progress asynchronous operation,
/// pollable for readiness and consumable exactly once.
#[verifier::external_type_specification]
#[verifier::external_body]
#[verifier::reject_recursive_types(T)]
pub struct ExPromise<T: Send + 'static>(Promise<T>);

/// Relies on poll_promise::Promise::ready: a non-blocking readiness poll.
/// Whether the task has finished depends on scheduling, so nothing is
/// promised of the outcome; callers state what holds either way. The poll
/// panics only on a handle whose task was torn down without producing a
/// value, which the side that spawns the task must rule out.
#[verifier::external_body]
pub(crate) fn promise_ready<T: Send + 'static>(p: &Promise<T>) -> bool {
    p.ready().is_some()
}

/// Relies on poll_promise::Promise::block_and_take: consumes the handle and
/// returns the value the task produced. Called only after `promise_ready`
/// answered true, so it does not block. The value depends on the task alone,
/// so nothing is promised of it; the logic that receives it is verified for
/// every possible value.
#[verifier::external_body]
pub(crate) fn promise_take<T: Send + 'static>(p: Promise<T>) -> T {
    p.block_and_take()
}

} // verus!
