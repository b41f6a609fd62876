//! The decisions of the non-blocking socket operations: retrying a write
//! until the whole buffer went out, and telling a finished operation from
//! one that has to wait for readiness.

use crate::context::Context;
use vstd::prelude::*;

verus! {

/// What one attempt to write part of a buffer came back with.
pub enum WriteEvent<E> {
    /// The socket accepted this many bytes.
    Wrote(usize),
    /// The call was interrupted before anything was written.
    Interrupted,
    /// Any other failure.
    Failed(E),
}

/// What to do next while writing a whole buffer.
pub enum WriteAllStep<E> {
    /// Write the bytes from this offset to the end of the buffer.
    Write(usize),
    /// Every byte has been written.
    Done,
    /// The socket accepted nothing: the buffer cannot be written whole.
    WriteZero,
    /// The write failed; the failure is handed on.
    Failed(E),
}

/// Progress of writing a whole buffer of a given length.
pub struct WriteAll {
    len: usize,
    written: usize,
}

/// The step that follows once `written` of `len` bytes went out.
pub open spec fn resume_step<E>(len: nat, written: nat) -> WriteAllStep<E> {
    if written >= len {
        WriteAllStep::Done
    } else {
        WriteAllStep::Write(written as usize)
    }
}

/// One transition of the write loop: the bytes written afterwards and the
/// step it asks for.
pub open spec fn write_all_transition<E>(len: nat, written: nat, ev: WriteEvent<E>) -> (nat, WriteAllStep<E>) {
    match ev {
        WriteEvent::Wrote(n) => if n == 0 {
            (written, WriteAllStep::WriteZero)
        } else {
            (written + n as nat, resume_step(len, written + n as nat))
        },
        WriteEvent::Interrupted => (written, resume_step(len, written)),
        WriteEvent::Failed(e) => (written, WriteAllStep::Failed(e)),
    }
}

impl WriteAll {
    /// Never more bytes written than the buffer holds.
    #[verifier::type_invariant]
    spec fn within_buffer(self) -> bool {
        self.written <= self.len
    }

    /// The length of the buffer.
    pub closed spec fn total(&self) -> nat {
        self.len as nat
    }

    /// How many bytes have been written so far.
    pub closed spec fn done(&self) -> nat {
        self.written as nat
    }

    /// Starts writing a buffer of `len` bytes; nothing is written yet.
    pub fn new(len: usize) -> (w: WriteAll)
        ensures
            w.total() == len,
            w.done() == 0,
    {
        WriteAll { len, written: 0 }
    }

    /// The step that follows the bytes written so far: an empty rest means
    /// done, otherwise the rest of the buffer is to be written.
    pub fn next_step<E>(&self) -> (s: WriteAllStep<E>)
        ensures
            self.done() <= self.total(),
            self.total() <= usize::MAX,
            s == resume_step::<E>(self.total(), self.done()),
    {
        proof {
            use_type_invariant(self);
        }
        if self.written >= self.len {
            WriteAllStep::Done
        } else {
            WriteAllStep::Write(self.written)
        }
    }

    /// Takes in the outcome of a write of the rest of the buffer. A write
    /// that accepts nothing ends the loop; an interrupted one is retried from
    /// the same offset; any other failure is handed on.
    pub fn on_event<E>(&mut self, ev: WriteEvent<E>) -> (s: WriteAllStep<E>)
        requires
            old(self).done() < old(self).total(),
            ev matches WriteEvent::Wrote(n) ==> n <= old(self).total() - old(self).done(),
        ensures
            final(self).total() == old(self).total(),
            old(self).total() <= usize::MAX,
            (final(self).done(), s) == write_all_transition(old(self).total(), old(self).done(), ev),
            final(self).done() <= final(self).total(),
    {
        proof {
            use_type_invariant(&*self);
        }
        match ev {
            WriteEvent::Wrote(n) => {
                if n == 0 {
                    WriteAllStep::WriteZero
                } else {
                    self.written = self.written + n;
                    self.next_step()
                }
            },
            WriteEvent::Interrupted => self.next_step(),
            WriteEvent::Failed(e) => WriteAllStep::Failed(e),
        }
    }
}

/// The number of bytes accepted by the first `i` writes.
pub open spec fn accepted(sizes: Seq<usize>, i: int) -> nat
    decreases i,
{
    if i <= 0 {
        0
    } else {
        accepted(sizes, i - 1) + sizes[i - 1] as nat
    }
}

proof fn lemma_accepted_grows(sizes: Seq<usize>, i: int, j: int)
    requires
        0 <= i < j <= sizes.len(),
        forall|k: int| 0 <= k < sizes.len() ==> #[trigger] sizes[k] > 0,
    ensures
        accepted(sizes, i) < accepted(sizes, j),
    decreases j - i,
{
    if j > i + 1 {
        lemma_accepted_grows(sizes, i, j - 1);
    }
}

/// Writing a buffer whole: when every write accepts at least one byte and
/// the writes together accept the whole buffer, each write is asked for the
/// rest of the buffer from the number of bytes accepted before it, and the
/// loop reports done exactly after the last one, with every byte written
/// once.
pub proof fn law_write_all_covers_buffer<E>(
    len: nat,
    sizes: Seq<usize>,
    written: Seq<nat>,
    steps: Seq<WriteAllStep<E>>,
)
    requires
        len > 0,
        sizes.len() > 0,
        written.len() == sizes.len() + 1,
        steps.len() == sizes.len(),
        written[0] == 0,
        forall|i: int| 0 <= i < sizes.len() ==> #[trigger] sizes[i] > 0,
        accepted(sizes, sizes.len() as int) == len,
        forall|i: int|
            0 <= i < sizes.len() ==> (written[i + 1], steps[i]) == #[trigger] write_all_transition(
                len,
                written[i],
                WriteEvent::<E>::Wrote(sizes[i]),
            ),
    ensures
        forall|i: int| 0 <= i <= sizes.len() ==> #[trigger] written[i] == accepted(sizes, i),
        forall|i: int|
            0 <= i < sizes.len() - 1 ==> #[trigger] steps[i] == WriteAllStep::<E>::Write(
                written[i + 1] as usize,
            ),
        steps.last() == WriteAllStep::<E>::Done,
        written.last() == len,
{
    let n: int = sizes.len() as int;
    assert forall|i: int| 0 <= i <= n implies #[trigger] written[i] == accepted(sizes, i) by {
        lemma_written_prefix(len, sizes, written, steps, i);
    }
    assert forall|i: int| 0 <= i < n - 1 implies #[trigger] steps[i] == WriteAllStep::<E>::Write(
        written[i + 1] as usize,
    ) by {
        assert(written[i] == accepted(sizes, i));
        assert(written[i + 1] == accepted(sizes, i + 1));
        lemma_accepted_grows(sizes, i + 1, n);
        assert(write_all_transition(len, written[i], WriteEvent::<E>::Wrote(sizes[i]))
            == (written[i + 1], steps[i]));
    }
    assert(written[n] == accepted(sizes, n));
    assert(write_all_transition(len, written[n - 1], WriteEvent::<E>::Wrote(sizes[n - 1]))
        == (written[n], steps[n - 1]));
}

proof fn lemma_written_prefix<E>(
    len: nat,
    sizes: Seq<usize>,
    written: Seq<nat>,
    steps: Seq<WriteAllStep<E>>,
    i: int,
)
    requires
        written.len() == sizes.len() + 1,
        steps.len() == sizes.len(),
        written[0] == 0,
        forall|k: int| 0 <= k < sizes.len() ==> #[trigger] sizes[k] > 0,
        forall|k: int|
            0 <= k < sizes.len() ==> (written[k + 1], steps[k]) == #[trigger] write_all_transition(
                len,
                written[k],
                WriteEvent::<E>::Wrote(sizes[k]),
            ),
        0 <= i <= sizes.len(),
    ensures
        written[i] == accepted(sizes, i),
    decreases i,
{
    if i > 0 {
        lemma_written_prefix(len, sizes, written, steps, i - 1);
        assert(write_all_transition(len, written[i - 1], WriteEvent::<E>::Wrote(sizes[i - 1]))
            == (written[i], steps[i - 1]));
    }
}

/// The number of bytes accepted by the first `i` outcomes of a run, any of
/// them interrupted or failed.
pub open spec fn accepted_by<E>(evs: Seq<WriteEvent<E>>, i: int) -> nat
    decreases i,
{
    if i <= 0 {
        0
    } else {
        accepted_by(evs, i - 1) + match evs[i - 1] {
            WriteEvent::Wrote(n) => n as nat,
            _ => 0nat,
        }
    }
}

proof fn lemma_run_prefix<E>(
    len: nat,
    evs: Seq<WriteEvent<E>>,
    written: Seq<nat>,
    steps: Seq<WriteAllStep<E>>,
    i: int,
)
    requires
        written.len() == evs.len() + 1,
        steps.len() == evs.len(),
        written[0] == 0,
        forall|k: int|
            0 <= k < evs.len() ==> (written[k + 1], steps[k]) == #[trigger] write_all_transition(
                len,
                written[k],
                evs[k],
            ),
        forall|k: int|
            0 <= k < evs.len() ==> (#[trigger] evs[k] matches WriteEvent::Wrote(m) ==> m + written[k]
                <= len),
        0 <= i <= evs.len(),
        len > 0,
    ensures
        written[i] == accepted_by(evs, i),
        written[i] <= len,
    decreases i,
{
    if i > 0 {
        lemma_run_prefix(len, evs, written, steps, i - 1);
        assert(write_all_transition(len, written[i - 1], evs[i - 1]) == (written[i], steps[i - 1]));
        let ev = evs[i - 1];
        if ev is Wrote {
            assert(ev->Wrote_0 + written[i - 1] <= len);
        }
    }
}

/// Over any run of the write loop, with writes accepted in part, interrupted
/// or failed, and whether or not it reaches the end: the i-th write is asked
/// for the rest of the buffer from exactly the bytes accepted by the writes
/// before it; the loop goes on only while bytes are left, says done exactly
/// when all are accepted, stops with "write zero" exactly on a write that
/// accepts nothing, and hands on exactly the failure it got.
pub proof fn law_write_all_any_run<E>(
    len: nat,
    evs: Seq<WriteEvent<E>>,
    written: Seq<nat>,
    steps: Seq<WriteAllStep<E>>,
)
    requires
        len > 0,
        written.len() == evs.len() + 1,
        steps.len() == evs.len(),
        written[0] == 0,
        forall|k: int|
            0 <= k < evs.len() ==> (written[k + 1], steps[k]) == #[trigger] write_all_transition(
                len,
                written[k],
                evs[k],
            ),
        forall|k: int| 0 <= k < evs.len() - 1 ==> (#[trigger] steps[k]) is Write,
        forall|k: int|
            0 <= k < evs.len() ==> (#[trigger] evs[k] matches WriteEvent::Wrote(m) ==> m + written[k]
                <= len),
    ensures
        resume_step::<E>(len, 0) == WriteAllStep::<E>::Write(0),
        forall|i: int|
            0 < i < evs.len() ==> #[trigger] steps[i - 1] == WriteAllStep::<E>::Write(
                accepted_by(evs, i) as usize,
            ),
        forall|i: int| 0 <= i <= evs.len() ==> #[trigger] written[i] == accepted_by(evs, i) && written[i] <= len,
        forall|i: int|
            0 <= i < evs.len() ==> ((#[trigger] steps[i] is Write) <==> (!(evs[i] is Failed) && !(
            evs[i] == WriteEvent::<E>::Wrote(0)) && accepted_by(evs, i + 1) < len)),
        forall|i: int|
            0 <= i < evs.len() ==> ((#[trigger] steps[i] is Done) <==> (!(evs[i] is Failed) && !(
            evs[i] == WriteEvent::<E>::Wrote(0)) && accepted_by(evs, i + 1) == len)),
        forall|i: int|
            0 <= i < evs.len() ==> ((#[trigger] steps[i] is WriteZero) <==> evs[i]
                == WriteEvent::<E>::Wrote(0)),
        forall|i: int|
            0 <= i < evs.len() ==> ((#[trigger] steps[i] is Failed) <==> evs[i] is Failed)
                && (steps[i] matches WriteAllStep::Failed(e) ==> evs[i] == WriteEvent::Failed(e)),
{
    assert forall|i: int| 0 <= i <= evs.len() implies #[trigger] written[i] == accepted_by(evs, i)
        && written[i] <= len by {
        lemma_run_prefix(len, evs, written, steps, i);
    }
    assert forall|i: int| 0 <= i < evs.len() implies {
        &&& ((#[trigger] steps[i] is Write) <==> (!(evs[i] is Failed) && !(evs[i] == WriteEvent::<
            E,
        >::Wrote(0)) && accepted_by(evs, i + 1) < len))
        &&& ((steps[i] is Done) <==> (!(evs[i] is Failed) && !(evs[i] == WriteEvent::<E>::Wrote(0))
            && accepted_by(evs, i + 1) == len))
        &&& ((steps[i] is WriteZero) <==> evs[i] == WriteEvent::<E>::Wrote(0))
        &&& ((steps[i] is Failed) <==> evs[i] is Failed) && (steps[i] matches WriteAllStep::Failed(
            e,
        ) ==> evs[i] == WriteEvent::Failed(e))
        &&& (steps[i] is Write ==> steps[i] == WriteAllStep::<E>::Write(
            accepted_by(evs, i + 1) as usize,
        ))
    } by {
        lemma_run_prefix(len, evs, written, steps, i);
        lemma_run_prefix(len, evs, written, steps, i + 1);
        assert(write_all_transition(len, written[i], evs[i]) == (written[i + 1], steps[i]));
    }
    assert forall|i: int| 0 < i < evs.len() implies #[trigger] steps[i - 1]
        == WriteAllStep::<E>::Write(accepted_by(evs, i) as usize) by {
        assert(steps[i - 1] is Write);
    }
}

/// What a non-blocking operation came back with.
pub enum NbResult<T, E> {
    /// It completed with a value.
    Ready(T),
    /// It would have blocked.
    WouldBlock,
    /// It failed for another reason.
    Failed(E),
}

/// What to do with the outcome of a non-blocking operation.
pub enum NbStep<T, E> {
    /// The operation is over; this is its result.
    Complete(Result<T, E>),
    /// Register the readiness interest, yield, and try again when polled.
    Wait,
}

/// Which readiness a waiting operation registers.
#[derive(PartialEq, Eq, Structural, Debug, Clone, Copy)]
pub enum Interest {
    Read,
    Write,
    All,
}

/// The decision after one attempt of a non-blocking operation.
pub open spec fn nb_decision<T, E>(r: NbResult<T, E>) -> NbStep<T, E> {
    match r {
        NbResult::Ready(v) => NbStep::Complete(Ok(v)),
        NbResult::WouldBlock => NbStep::Wait,
        NbResult::Failed(e) => NbStep::Complete(Err(e)),
    }
}

/// Decides what follows an attempt of a non-blocking operation: a value or
/// a failure ends it, "would block" makes it wait for readiness.
pub fn nb_step<T, E>(r: NbResult<T, E>) -> (s: NbStep<T, E>)
    ensures
        s == nb_decision(r),
{
    match r {
        NbResult::Ready(v) => NbStep::Complete(Ok(v)),
        NbResult::WouldBlock => NbStep::Wait,
        NbResult::Failed(e) => NbStep::Complete(Err(e)),
    }
}

/// Registers the interest of a waiting operation on `fd`.
pub fn register_interest<T>(ctx: &mut Context<T>, fd: i32, interest: Interest)
    ensures
        final(ctx).interest() == Some((fd, crate::context::Ready {
            readable: interest != Interest::Write,
            writable: interest != Interest::Read,
        })),
        final(ctx).spawned() == old(ctx).spawned(),
        final(ctx).token() == old(ctx).token(),
{
    match interest {
        Interest::Read => ctx.register_read(fd),
        Interest::Write => ctx.register_write(fd),
        Interest::All => ctx.register_all(fd),
    }
}

/// What the run loop tells a connecting task.
pub enum ConnectEvent<E> {
    /// The first poll opened the socket, or failed to.
    Opened(Result<(), E>),
    /// The task is polled again after it yielded.
    Resumed,
}

/// What a connecting task does next.
pub enum ConnectStep<E> {
    /// Ask to be woken when the socket is writable, and yield.
    Register,
    /// The connection attempt is over with this result.
    Done(Result<(), E>),
}

/// Where a connecting task stands.
#[derive(PartialEq, Eq, Structural, Debug, Clone, Copy)]
pub enum ConnectStage {
    Opening,
    Yielded,
    Finished,
}

/// A connection attempt: the socket is opened at the first poll; a failure
/// ends the attempt at once, otherwise the task waits for the socket to
/// become writable, yielding exactly once, and then hands it over.
pub struct Connecting {
    stage: ConnectStage,
}

impl Connecting {
    /// Where the attempt stands.
    pub closed spec fn stage(&self) -> ConnectStage {
        self.stage
    }

    /// A connection attempt that has not been polled yet.
    pub fn new() -> (c: Connecting)
        ensures
            c.stage() == ConnectStage::Opening,
    {
        Connecting { stage: ConnectStage::Opening }
    }

    /// Takes in the outcome of opening the socket, or the poll after the
    /// yield, and says what to do.
    pub fn step<E>(&mut self, ev: ConnectEvent<E>) -> (s: ConnectStep<E>)
        requires
            old(self).stage() == ConnectStage::Opening <==> ev is Opened,
            old(self).stage() == ConnectStage::Yielded <==> ev is Resumed,
        ensures
            match ev {
                ConnectEvent::Opened(Err(e)) => s == ConnectStep::<E>::Done(Err(e))
                    && final(self).stage() == ConnectStage::Finished,
                ConnectEvent::Opened(Ok(())) => s is Register && final(self).stage()
                    == ConnectStage::Yielded,
                ConnectEvent::Resumed => s == ConnectStep::<E>::Done(Ok(()))
                    && final(self).stage() == ConnectStage::Finished,
            },
    {
        match ev {
            ConnectEvent::Opened(Err(e)) => {
                self.stage = ConnectStage::Finished;
                ConnectStep::Done(Err(e))
            },
            ConnectEvent::Opened(Ok(())) => {
                self.stage = ConnectStage::Yielded;
                ConnectStep::Register
            },
            ConnectEvent::Resumed => {
                self.stage = ConnectStage::Finished;
                ConnectStep::Done(Ok(()))
            },
        }
    }
}

} // verus!
