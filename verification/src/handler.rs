//! The handler at the end of a chain, and the factory that makes one for each
//! request.

use vstd::prelude::*;

verus! {

/// What ends a chain: it gets the state and the request and gives the outcome.
pub trait Handler<S, R, O>: Sized + Send {
    /// What this handler may return for a state and a request. An
    /// implementation that says nothing allows every outcome.
    open spec fn handled(self, state: S, req: R, out: O) -> bool {
        true
    }

    /// Handles the request.
    fn handle(self, state: S, req: R) -> (out: O)
        ensures
            self.handled(state, req, out),
    ;
}

/// A factory that makes a fresh handler for each request.
pub trait NewHandler<E> {
    type Instance;

    /// What a call of the factory may return. It speaks of the factory alone.
    /// An implementation that says nothing allows every result.
    open spec fn made(&self, r: Result<Self::Instance, E>) -> bool {
        true
    }

    /// Makes a handler for one request, or fails.
    fn new_handler(&self) -> (r: Result<Self::Instance, E>)
        ensures
            self.made(r),
    ;
}

} // verus!
