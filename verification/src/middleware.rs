//! Middleware and the factories that make one for each request.

use vstd::prelude::*;
use crate::chain::{outcomes_of, total, within, Outcomes};

verus! {

/// A unit of a chain, made for one request. It gets the state and the request
/// and the rest of the chain as a continuation, which it may call or not.
pub trait Middleware<S, R, O>: Sized {
    /// What this middleware may return for a state and a request when the rest
    /// of the chain behaves as `chain` says. An implementation says here what
    /// it does; one that says nothing allows every outcome.
    open spec fn processed(self, state: S, req: R, chain: Outcomes<S, R, O>, out: O) -> bool {
        true
    }

    /// Handles the request. The continuation must take every state and
    /// request. The outcome is one that `processed` allows with the behaviour
    /// of the continuation, and so with every behaviour that includes it.
    fn call<Chain>(self, state: S, req: R, chain: Chain) -> (out: O) where
        Chain: FnOnce(S, R) -> O + Send + 'static,

        requires
            total(chain),
        ensures
            forall|post: Outcomes<S, R, O>| #[trigger]
                within(outcomes_of(chain), post) ==> self.processed(state, req, post, out),
    ;
}

/// A factory that makes a fresh middleware for each request.
pub trait NewMiddleware<E> {
    type Instance;

    /// What a call of the factory may return. It speaks of the factory alone:
    /// what was made before, and what became of it, does not count. An
    /// implementation that says nothing allows every result.
    open spec fn made(&self, r: Result<Self::Instance, E>) -> bool {
        true
    }

    /// Makes a middleware for one request, or fails. The factory stays as it
    /// is.
    fn new_middleware(&self) -> (r: Result<Self::Instance, E>)
        ensures
            self.made(r),
    ;
}

} // verus!
