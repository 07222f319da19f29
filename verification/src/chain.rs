//! The mathematical model of a chain: what a continuation may return, what a
//! stage does with a continuation, and how stages nest around a handler.

use vstd::prelude::*;

verus! {

/// What a continuation may do: `true` of a state, a request and an outcome
/// where the continuation, called with that state and request, may return that
/// outcome.
pub type Outcomes<S, R, O> = spec_fn(S, R, O) -> bool;

/// What one stage of a chain may do: `true` of a state, a request, the
/// behaviour of the rest of the chain and an outcome where the stage, called
/// with that state and request and with such a rest, may return that outcome.
pub type Stage<S, R, O> = spec_fn(S, R, Outcomes<S, R, O>, O) -> bool;

/// The behaviour of an executable continuation.
pub open spec fn outcomes_of<S, R, O, F: FnOnce(S, R) -> O>(f: F) -> Outcomes<S, R, O> {
    |s: S, r: R, o: O| call_ensures(f, (s, r), o)
}

/// Everything that `a` may return, `b` may return too.
pub open spec fn within<S, R, O>(a: Outcomes<S, R, O>, b: Outcomes<S, R, O>) -> bool {
    forall|s: S, r: R, o: O| #[trigger] a(s, r, o) ==> b(s, r, o)
}

/// A continuation that can be called with every state and request.
pub open spec fn total<S, R, O, F: FnOnce(S, R) -> O>(f: F) -> bool {
    forall|s: S, r: R| call_requires(f, (s, r))
}

/// One stage set around a continuation.
pub open spec fn wrap<S, R, O>(stage: Stage<S, R, O>, rest: Outcomes<S, R, O>) -> Outcomes<
    S,
    R,
    O,
> {
    |s: S, r: R, o: O| stage(s, r, rest, o)
}

/// The stages, given in the order in which they were added, nested around
/// `terminal`: the last stage is set directly around `terminal`, each earlier
/// stage around what the later ones make.
pub open spec fn compose<S, R, O>(stages: Seq<Stage<S, R, O>>, terminal: Outcomes<S, R, O>)
    -> Outcomes<S, R, O>
    decreases stages.len(),
{
    if stages.len() == 0 {
        terminal
    } else {
        compose(stages.drop_last(), wrap(stages.last(), terminal))
    }
}

/// A stage that never calls the rest of the chain: what it may return is the
/// same whatever the rest may do.
pub open spec fn ignores_rest<S, R, O>(stage: Stage<S, R, O>) -> bool {
    forall|s: S, r: R, a: Outcomes<S, R, O>, b: Outcomes<S, R, O>, o: O|
        #![trigger stage(s, r, a, o), stage(s, r, b, o)]
        stage(s, r, a, o) == stage(s, r, b, o)
}

/// With no stage the chain is the handler alone.
pub proof fn lemma_empty_chain<S, R, O>(terminal: Outcomes<S, R, O>)
    ensures
        compose(Seq::<Stage<S, R, O>>::empty(), terminal) == terminal,
{
}

/// The stage added last stands directly around the handler, inside all the
/// stages added before it.
pub proof fn lemma_last_is_innermost<S, R, O>(
    stages: Seq<Stage<S, R, O>>,
    stage: Stage<S, R, O>,
    terminal: Outcomes<S, R, O>,
)
    ensures
        compose(stages.push(stage), terminal) == compose(stages, wrap(stage, terminal)),
{
    assert(stages.push(stage).drop_last() =~= stages);
}

/// The stage added first stands around all the others: it sees the state and
/// the request first, and the outcome last.
pub proof fn lemma_first_is_outermost<S, R, O>(
    stages: Seq<Stage<S, R, O>>,
    terminal: Outcomes<S, R, O>,
)
    requires
        stages.len() > 0,
    ensures
        compose(stages, terminal) == wrap(stages.first(), compose(stages.skip(1), terminal)),
    decreases stages.len(),
{
    let inner = wrap(stages.last(), terminal);
    if stages.len() == 1 {
        assert(stages.skip(1).len() == 0);
        assert(compose(stages.drop_last(), inner) == inner);
    } else {
        let front = stages.drop_last();
        lemma_first_is_outermost(front, inner);
        assert(stages.skip(1).drop_last() =~= front.skip(1));
        assert(stages.skip(1).last() == stages.last());
        assert(front.first() == stages.first());
        assert(compose(stages.skip(1), terminal) == compose(front.skip(1), inner));
    }
}

/// A chain of two runs of stages is the first run around the chain of the
/// second: the order of the stages is the order of the nesting.
pub proof fn lemma_compose_concat<S, R, O>(
    first: Seq<Stage<S, R, O>>,
    second: Seq<Stage<S, R, O>>,
    terminal: Outcomes<S, R, O>,
)
    ensures
        compose(first + second, terminal) == compose(first, compose(second, terminal)),
    decreases second.len(),
{
    if second.len() == 0 {
        assert(first + second =~= first);
    } else {
        let inner = wrap(second.last(), terminal);
        lemma_compose_concat(first, second.drop_last(), inner);
        assert((first + second).drop_last() =~= first + second.drop_last());
        assert((first + second).last() == second.last());
    }
}

/// Where a stage never calls the rest of the chain, nothing that comes after
/// it counts: neither the later stages nor the handler. The chain is what its
/// stages up to that one make around any stages and any handler at all.
pub proof fn lemma_short_circuit<S, R, O>(
    stages: Seq<Stage<S, R, O>>,
    k: int,
    terminal: Outcomes<S, R, O>,
    other_stages: Seq<Stage<S, R, O>>,
    other_terminal: Outcomes<S, R, O>,
)
    requires
        0 <= k < stages.len(),
        ignores_rest(stages[k]),
    ensures
        compose(stages, terminal) == compose(
            stages.take(k + 1) + other_stages,
            other_terminal,
        ),
{
    let before = stages.take(k);
    let upto = stages.take(k + 1);
    let rest = compose(stages.skip(k + 1), terminal);
    let other_rest = compose(other_stages, other_terminal);
    assert(stages =~= upto + stages.skip(k + 1));
    lemma_compose_concat(upto, stages.skip(k + 1), terminal);
    lemma_compose_concat(upto, other_stages, other_terminal);
    assert(upto =~= before.push(stages[k]));
    lemma_last_is_innermost(before, stages[k], rest);
    lemma_last_is_innermost(before, stages[k], other_rest);
    assert(wrap(stages[k], rest) =~= wrap(stages[k], other_rest));
}

/// A stage that notes `mark` in a trace on the way in, calls the rest of the
/// chain, and notes `mark` again on the way out.
pub open spec fn noting<R>(mark: int) -> Stage<Seq<int>, R, Seq<int>> {
    |s: Seq<int>, r: R, rest: Outcomes<Seq<int>, R, Seq<int>>, o: Seq<int>|
        exists|inner: Seq<int>| #[trigger] rest(s.push(mark), r, inner) && o == inner.push(mark)
}

/// The end of a chain that gives the trace back as it is.
pub open spec fn echo<R>() -> Outcomes<Seq<int>, R, Seq<int>> {
    |s: Seq<int>, r: R, o: Seq<int>| o == s
}

/// The stages that note the given marks, in the order of the marks.
pub open spec fn noting_all<R>(marks: Seq<int>) -> Seq<Stage<Seq<int>, R, Seq<int>>> {
    Seq::new(marks.len(), |i: int| noting::<R>(marks[i]))
}

/// What is seen on the way in is in the order in which the stages were added,
/// and what is seen on the way out is in the reverse of that order: a chain of
/// stages that note their marks leaves the trace it was given, then the marks
/// in order, then the marks in reverse, and nothing else.
pub proof fn lemma_observed_order<R>(marks: Seq<int>, trace: Seq<int>, req: R, out: Seq<int>)
    ensures
        compose(noting_all::<R>(marks), echo::<R>())(trace, req, out) <==> out == trace + marks
            + marks.reverse(),
    decreases marks.len(),
{
    let stages = noting_all::<R>(marks);
    if marks.len() == 0 {
        assert(trace + marks + marks.reverse() =~= trace);
    } else {
        let later = marks.skip(1);
        let rest = compose(noting_all::<R>(later), echo::<R>());
        let entered = trace.push(marks[0]);
        lemma_first_is_outermost(stages, echo::<R>());
        assert(stages.skip(1) =~= noting_all::<R>(later));
        assert(stages.first() == noting::<R>(marks[0]));
        assert(compose(stages, echo::<R>())(trace, req, out) == noting::<R>(marks[0])(
            trace,
            req,
            rest,
            out,
        ));
        let inner = entered + later + later.reverse();
        lemma_observed_order::<R>(later, entered, req, inner);
        assert(inner.push(marks[0]) =~= trace + marks + marks.reverse());
        if noting::<R>(marks[0])(trace, req, rest, out) {
            let found = choose|found: Seq<int>| #[trigger]
                rest(entered, req, found) && out == found.push(marks[0]);
            lemma_observed_order::<R>(later, entered, req, found);
        }
        if out == trace + marks + marks.reverse() {
            assert(rest(entered, req, inner));
        }
    }
}

} // verus!
