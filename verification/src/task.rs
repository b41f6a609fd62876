//! Polling interface shared by every task of the runtime.

use vstd::prelude::*;

verus! {

/// The answer of one poll: either the computation finished with a value, or
/// it has to be polled again later.
pub enum Await<T> {
    Done(T),
    NotReady,
}

/// What one resumption of a resumable computation produced: it either
/// stopped at a suspension point, handing out a value, or ran to completion.
pub enum GeneratorState<Y, R> {
    Yielded(Y),
    Complete(R),
}

/// A computation that can be suspended and resumed.
pub trait Generator: Sized {
    type Yield;
    type Return;

    /// Whether one resumption can take the computation from `self` to
    /// `post` while handing out `out`; each implementation says what its
    /// steps are.
    spec fn resumes_to(&self, post: Self, out: GeneratorState<Self::Yield, Self::Return>) -> bool;

    /// Runs the computation to its next suspension point or to its end.
    fn resume(&mut self) -> (out: GeneratorState<Self::Yield, Self::Return>)
        ensures
            old(self).resumes_to(*final(self), out),
    ;
}

/// Something that can be polled until it produces a value of type `R`.
pub trait Async<R> {
    fn poll(&mut self) -> Await<R>;
}

/// Adapts a generator that yields `()` at each suspension point into a task.
pub struct AsAsync<T>(pub T);

/// The poll answer that corresponds to one resumption: a suspension means
/// "not ready yet", completion hands the return value over.
pub open spec fn await_of<R>(s: GeneratorState<(), R>) -> Await<R> {
    match s {
        GeneratorState::Yielded(_) => Await::NotReady,
        GeneratorState::Complete(r) => Await::Done(r),
    }
}

/// The resumption outcome that a poll answer stands for: "not ready" is a
/// suspension, a value is completion with that value.
pub open spec fn state_of<R>(a: Await<R>) -> GeneratorState<(), R> {
    match a {
        Await::NotReady => GeneratorState::Yielded(()),
        Await::Done(r) => GeneratorState::Complete(r),
    }
}

/// `state_of` undoes `await_of`: a poll answer tells exactly which
/// resumption outcome it came from.
pub proof fn lemma_state_of_await_of<R>(out: GeneratorState<(), R>)
    ensures
        state_of(await_of(out)) == out,
{
    if out is Yielded {
        assert(out->Yielded_0 == ());
    }
}

impl<R> From<GeneratorState<(), R>> for Await<R> {
    fn from(f: GeneratorState<(), R>) -> (res: Await<R>) {
        match f {
            GeneratorState::Yielded(()) => Await::NotReady,
            GeneratorState::Complete(r) => Await::Done(r),
        }
    }
}

impl<R> vstd::std_specs::convert::FromSpecImpl<GeneratorState<(), R>> for Await<R> {
    open spec fn obeys_from_spec() -> bool {
        true
    }

    open spec fn from_spec(v: GeneratorState<(), R>) -> Await<R> {
        await_of(v)
    }
}

impl<T: Generator<Yield = (), Return = R>, R> Async<R> for AsAsync<T> {
    /// Resumes the generator once: a suspension answers "not ready",
    /// completion answers with the returned value.
    fn poll(&mut self) -> (a: Await<R>)
        ensures
            old(self).0.resumes_to(final(self).0, state_of(a)),
    {
        let out = self.0.resume();
        let a = Await::from(out);
        proof {
            lemma_state_of_await_of(out);
        }
        a
    }
}

impl<T: Generator<Yield = (), Return = R>, R> Async<R> for Box<T> {
    /// Resumes the boxed generator once, as `AsAsync` does.
    fn poll(&mut self) -> (a: Await<R>)
        ensures
            (**old(self)).resumes_to(**final(self), state_of(a)),
    {
        let out = (**self).resume();
        let a = Await::from(out);
        proof {
            lemma_state_of_await_of(out);
        }
        a
    }
}

/// Polling a generator through `AsAsync` or through a `Box` answers alike:
/// where one resumption from the generator's state has only one outcome,
/// both polls resume it to the same state and give the same answer, `Done(r)`
/// exactly for completion with `r` and "not ready" exactly for a suspension.
pub proof fn law_box_and_as_async_agree<G: Generator<Yield = (), Return = R>, R>(
    g: G,
    p1: AsAsync<G>,
    a1: Await<R>,
    p2: Box<G>,
    a2: Await<R>,
)
    requires
        forall|q1: G, q2: G, o1: GeneratorState<(), R>, o2: GeneratorState<(), R>|
            #[trigger] g.resumes_to(q1, o1) && #[trigger] g.resumes_to(q2, o2) ==> q1 == q2 && o1
                == o2,
        AsAsync(g).0.resumes_to(p1.0, state_of(a1)),
        (*Box::new(g)).resumes_to(*p2, state_of(a2)),
    ensures
        a1 == a2,
        p1.0 == *p2,
{
    assert(state_of(a1) == state_of(a2));
    match a1 {
        Await::Done(r1) => {
            assert(a2 is Done);
        },
        Await::NotReady => {
            assert(a2 is NotReady);
        },
    }
}

} // verus!
