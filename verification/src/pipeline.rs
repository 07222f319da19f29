//! Pipelines: the builder, the sealed definition, and the per-request instance
//! that is folded into one nested continuation.

use vstd::prelude::*;
use crate::chain::{
    compose, ignores_rest, lemma_last_is_innermost, lemma_short_circuit, outcomes_of, total, within, wrap, Outcomes, Stage,
};
use crate::handler::{Handler, NewHandler};
use crate::middleware::{Middleware, NewMiddleware};

verus! {

/// The behaviour of a middleware as a stage of a chain.
pub open spec fn stage_of<S, R, O, M: Middleware<S, R, O>>(m: M) -> Stage<S, R, O> {
    |s: S, r: R, rest: Outcomes<S, R, O>, o: O| m.processed(s, r, rest, o)
}

/// The behaviour of a handler as the end of a chain.
pub open spec fn handler_outcomes<S, R, O, H: Handler<S, R, O>>(h: H) -> Outcomes<S, R, O> {
    |s: S, r: R, o: O| h.handled(s, r, o)
}

/// The middleware of one request, most recently added first.
pub trait PipelineInstance<S, R, O>: Sized {
    /// The stages of this instance in the order in which they were added.
    spec fn stages(self) -> Seq<Stage<S, R, O>>;

    /// Sends a request through all the middleware and then to the handler.
    fn call<H>(self, state: S, request: R, handler: H) -> (out: O) where
        H: Handler<S, R, O> + 'static,

        ensures
            compose(self.stages(), handler_outcomes(handler))(state, request, out),
    {
        let f = move |s: S, r: R| -> (o: O)
            ensures
                handler.handled(s, r, o),
            { handler.handle(s, r) };
        let out = self.call_recurse(state, request, f);
        proof {
            assert forall|s: S, r: R, o: O| #[trigger] outcomes_of(f)(s, r, o) implies (
            handler_outcomes(handler))(s, r, o) by {
                assert(call_ensures(f, (s, r), o));
            }
            assert(within(outcomes_of(f), handler_outcomes(handler)));
        }
        out
    }

    /// Runs the middleware around the continuation `f`: the first added
    /// outermost, the last added directly around `f`.
    fn call_recurse<F>(self, state: S, request: R, f: F) -> (out: O) where
        F: FnOnce(S, R) -> O + Send + 'static,

        requires
            total(f),
        ensures
            forall|post: Outcomes<S, R, O>| #[trigger]
                within(outcomes_of(f), post) ==> compose(self.stages(), post)(
                    state,
                    request,
                    out,
                ),
    ;
}

impl<S, R, O> PipelineInstance<S, R, O> for () {
    open spec fn stages(self) -> Seq<Stage<S, R, O>> {
        Seq::empty()
    }

    fn call_recurse<F>(self, state: S, request: R, f: F) -> (out: O) where
        F: FnOnce(S, R) -> O + Send + 'static,
     {
        let out = f(state, request);
        proof {
            assert(outcomes_of(f)(state, request, out));
        }
        out
    }
}

impl<S, R, O, T, U> PipelineInstance<S, R, O> for (T, U) where
    T: Middleware<S, R, O> + Send + 'static,
    U: PipelineInstance<S, R, O>,
 {
    open spec fn stages(self) -> Seq<Stage<S, R, O>> {
        self.1.stages().push(stage_of(self.0))
    }

    fn call_recurse<F>(self, state: S, request: R, f: F) -> (out: O) where
        F: FnOnce(S, R) -> O + Send + 'static,
     {
        let (m, p) = self;
        let g = move |s: S, r: R| -> (o: O)
            ensures
                forall|post: Outcomes<S, R, O>| #[trigger]
                    within(outcomes_of(f), post) ==> m.processed(s, r, post, o),
            { m.call(s, r, f) };
        let out = p.call_recurse(state, request, g);
        proof {
            assert forall|post: Outcomes<S, R, O>| #[trigger]
                within(outcomes_of(f), post) implies compose((m, p).stages(), post)(
                state,
                request,
                out,
            ) by {
                let inner = wrap(stage_of(m), post);
                assert forall|s: S, r: R, o: O| #[trigger] outcomes_of(g)(s, r, o) implies inner(
                    s,
                    r,
                    o,
                ) by {
                    assert(call_ensures(g, (s, r), o));
                }
                assert(within(outcomes_of(g), inner));
                assert((m, p).stages().drop_last() =~= p.stages());
                assert((m, p).stages().last() == stage_of(m));
            }
        }
        out
    }
}

/// A list of middleware factories, most recently added first, that can make
/// the middleware of one request.
pub trait NewPipelineInstance<E>: Sized {
    type Instance;

    /// What making the middleware of one request may return: one middleware
    /// from each factory, in the same places, or the error of a factory that
    /// failed after all those added before it had made theirs.
    spec fn spawned(&self, r: Result<Self::Instance, E>) -> bool;

    /// Makes the middleware of one request, in the order in which the
    /// factories were added, and stops at the first that fails.
    fn new_pipeline_instance(&self) -> (r: Result<Self::Instance, E>)
        ensures
            self.spawned(r),
    ;
}

impl<E> NewPipelineInstance<E> for () {
    type Instance = ();

    open spec fn spawned(&self, r: Result<(), E>) -> bool {
        r is Ok
    }

    fn new_pipeline_instance(&self) -> (r: Result<(), E>) {
        Ok(())
    }
}

impl<E, T, U> NewPipelineInstance<E> for (T, U) where
    T: NewMiddleware<E>,
    U: NewPipelineInstance<E>,
 {
    type Instance = (T::Instance, U::Instance);

    open spec fn spawned(&self, r: Result<(T::Instance, U::Instance), E>) -> bool {
        match r {
            Ok(made) => self.1.spawned(Ok(made.1)) && self.0.made(Ok(made.0)),
            Err(e) => self.1.spawned(Err(e)) || (self.0.made(Err(e)) && exists|rest: U::Instance|
                self.1.spawned(Ok(rest))),
        }
    }

    fn new_pipeline_instance(&self) -> (r: Result<(T::Instance, U::Instance), E>) {
        match self.1.new_pipeline_instance() {
            Ok(rest) => match self.0.new_middleware() {
                Ok(m) => Ok((m, rest)),
                Err(e) => Err(e),
            },
            Err(e) => Err(e),
        }
    }
}

/// Allows a pipeline to be defined by adding middleware factories one by one.
pub struct PipelineBuilder<T> {
    t: T,
}

impl<T> View for PipelineBuilder<T> {
    type V = T;

    /// The factories, most recently added first.
    closed spec fn view(&self) -> T {
        self.t
    }
}

/// A sealed pipeline: its middleware run in the order in which their factories
/// were added, and then the handler.
pub struct Pipeline<T> {
    builder: PipelineBuilder<T>,
}

impl<T> View for Pipeline<T> {
    type V = T;

    /// The factories, most recently added first.
    closed spec fn view(&self) -> T {
        self.builder.t
    }
}

/// Begins a pipeline with no middleware.
pub fn new_pipeline() -> (b: PipelineBuilder<()>)
    ensures
        b@ == (),
{
    PipelineBuilder { t: () }
}

impl<T> PipelineBuilder<T> {
    /// Seals the pipeline with the factories added so far.
    pub fn build(self) -> (p: Pipeline<T>)
        ensures
            p@ == self@,
    {
        Pipeline { builder: self }
    }

    /// Adds a factory whose middleware runs after those of the factories added
    /// before.
    pub fn add<M, E>(self, m: M) -> (b: PipelineBuilder<(M, T)>) where
        M: NewMiddleware<E>,
        M::Instance: Send + 'static,

        ensures
            b@ == (m, self@),
    {
        PipelineBuilder { t: (m, self.t) }
    }
}

/// What a dispatch through the factories `factories` with the handler factory
/// `new_handler` may return.
pub open spec fn dispatched<T, H, S, R, O, E>(
    factories: T,
    new_handler: H,
    state: S,
    req: R,
    res: Result<O, (S, E)>,
) -> bool where
    T: NewPipelineInstance<E>,
    T::Instance: PipelineInstance<S, R, O>,
    H: NewHandler<E>,
    H::Instance: Handler<S, R, O>,
 {
    match res {
        Ok(out) => exists|h: H::Instance, p: T::Instance|
            new_handler.made(Ok(h)) && factories.spawned(Ok(p)) && #[trigger] compose(
                p.stages(),
                handler_outcomes(h),
            )(state, req, out),
        Err(failure) => failure.0 == state && (new_handler.made(Err(failure.1)) || (
        factories.spawned(Err(failure.1)) && exists|h: H::Instance| new_handler.made(Ok(h)))),
    }
}

/// Sends a request through the middleware of one request and then to the
/// handler, or gives the state back with the error where the middleware could
/// not be made.
pub fn start<P, H, S, R, O, E>(instance: Result<P, E>, handler: H, state: S, req: R) -> (res:
    Result<O, (S, E)>) where P: PipelineInstance<S, R, O>, H: Handler<S, R, O> + 'static
    ensures
        match instance {
            Ok(p) => res is Ok && compose(p.stages(), handler_outcomes(handler))(
                state,
                req,
                res->Ok_0,
            ),
            Err(e) => res == Err::<O, (S, E)>((state, e)),
        },
{
    match instance {
        Ok(p) => Ok(p.call(state, req, handler)),
        Err(e) => Err((state, e)),
    }
}

impl<T> Pipeline<T> {
    /// Makes the handler and the middleware for one request and sends the
    /// request through the middleware, in the order in which their factories
    /// were added, and then to the handler. Where the handler or a middleware
    /// cannot be made, nothing runs, and the state comes back with the error.
    pub fn call<H, S, R, O, E>(&self, new_handler: &H, state: S, req: R) -> (res: Result<
        O,
        (S, E),
    >) where
        T: NewPipelineInstance<E>,
        T::Instance: PipelineInstance<S, R, O>,
        H: NewHandler<E>,
        H::Instance: Handler<S, R, O> + 'static,

        ensures
            dispatched(self@, *new_handler, state, req, res),
    {
        match new_handler.new_handler() {
            Ok(handler) => start(self.builder.t.new_pipeline_instance(), handler, state, req),
            Err(e) => Err((state, e)),
        }
    }
}

/// An empty pipeline hands the request straight to the handler: the outcome
/// is the handler's own for the state and the request as they were given.
pub proof fn lemma_empty_pipeline_dispatch<H, S, R, O, E>(
    new_handler: H,
    state: S,
    req: R,
    res: Result<O, (S, E)>,
) where H: NewHandler<E>, H::Instance: Handler<S, R, O>
    requires
        dispatched((), new_handler, state, req, res),
    ensures
        match res {
            Ok(out) => exists|h: H::Instance|
                new_handler.made(Ok(h)) && #[trigger] h.handled(state, req, out),
            Err(failure) => failure.0 == state && new_handler.made(Err(failure.1)),
        },
{
    match res {
        Ok(out) => {
            let (h, p) = choose|h: H::Instance, p: ()|
                new_handler.made(Ok(h)) && ().spawned(Ok::<(), E>(p)) && #[trigger] compose(
                    PipelineInstance::<S, R, O>::stages(p),
                    handler_outcomes(h),
                )(state, req, out);
            assert(h.handled(state, req, out));
        },
        Err(failure) => {},
    }
}

/// A dispatch that fails gives the state back as it was given, with the error
/// of the factory that failed; and there is an outcome only where the handler
/// and every middleware were made.
pub proof fn lemma_construction_failure_aborts<T, H, S, R, O, E>(
    factories: T,
    new_handler: H,
    state: S,
    req: R,
    res: Result<O, (S, E)>,
) where
    T: NewPipelineInstance<E>,
    T::Instance: PipelineInstance<S, R, O>,
    H: NewHandler<E>,
    H::Instance: Handler<S, R, O>,

    requires
        dispatched(factories, new_handler, state, req, res),
    ensures
        res matches Err(failure) ==> failure.0 == state && (new_handler.made(Err(failure.1))
            || factories.spawned(Err(failure.1))),
        res is Ok ==> (exists|h: H::Instance| new_handler.made(Ok(h))) && (exists|
            p: T::Instance,
        |
            factories.spawned(Ok(p))),
{
}

/// The middleware of a request are made all or none: there is a middleware
/// for each factory, each made by its own factory, or else an error, which is
/// that of the factory added last or of one added before it.
pub proof fn lemma_spawn_all_or_nothing<E, T, U>(
    last: T,
    earlier: U,
    r: Result<(T::Instance, U::Instance), E>,
) where T: NewMiddleware<E>, U: NewPipelineInstance<E>
    requires
        (last, earlier).spawned(r),
    ensures
        r matches Ok(made) ==> last.made(Ok(made.0)) && earlier.spawned(Ok(made.1)),
        r matches Err(e) ==> last.made(Err(e)) || earlier.spawned(Err(e)),
        (forall|m: T::Instance| !last.made(Ok(m))) ==> r is Err,
        (forall|p: U::Instance| !earlier.spawned(Ok(p))) ==> r is Err,
{
}

/// The middleware of a factory that was added runs after those of the
/// factories added before it: its stage is the last, directly around the
/// handler and inside all the others.
pub proof fn lemma_added_runs_last<S, R, O, E, M, T>(
    added: M,
    earlier: T,
    made: (M::Instance, T::Instance),
    terminal: Outcomes<S, R, O>,
) where
    M: NewMiddleware<E>,
    M::Instance: Middleware<S, R, O> + Send + 'static,
    T: NewPipelineInstance<E>,
    T::Instance: PipelineInstance<S, R, O>,

    requires
        (added, earlier).spawned(Ok(made)),
    ensures
        added.made(Ok(made.0)),
        earlier.spawned(Ok(made.1)),
        made.stages() == made.1.stages().push(stage_of(made.0)),
        compose(made.stages(), terminal) == compose(
            made.1.stages(),
            wrap(stage_of(made.0), terminal),
        ),
{
    lemma_last_is_innermost(made.1.stages(), stage_of(made.0), terminal);
}

/// Where one of the middleware never calls the rest of the chain, the handler
/// does not count: the chain is the same with any other handler.
pub proof fn lemma_short_circuit_skips_handler<S, R, O, P, H, G>(
    instance: P,
    k: int,
    handler: H,
    other: G,
) where P: PipelineInstance<S, R, O>, H: Handler<S, R, O>, G: Handler<S, R, O>
    requires
        0 <= k < instance.stages().len(),
        ignores_rest(instance.stages()[k]),
    ensures
        compose(instance.stages(), handler_outcomes(handler)) == compose(
            instance.stages(),
            handler_outcomes(other),
        ),
{
    let stages = instance.stages();
    lemma_short_circuit(
        stages,
        k,
        handler_outcomes(handler),
        stages.skip(k + 1),
        handler_outcomes(other),
    );
    assert(stages.take(k + 1) + stages.skip(k + 1) =~= stages);
}

} // verus!
