//! The order of the run loop: poll the main future, register its interest,
//! poll every ready task once (registering the interest of each that is not
//! done), adopt the tasks spawned meanwhile, wait for readiness events, and
//! go round again, polling the main future only after an event for it.

use crate::scheduler::{Scheduler, Wake, BUSY_POLL_MS, MAIN_TASK};
use vstd::prelude::*;

verus! {

broadcast use vstd::std_specs::hash::group_hash_axioms;

/// What the run loop learns from the code that performs its actions.
pub enum LoopEvent<T> {
    /// The loop is started.
    Begin,
    /// The main future was polled; `true` when it finished.
    MainPolled(bool),
    /// The interest asked for was registered.
    Registered,
    /// The task handed out was polled; `true` when it finished. The task
    /// comes back with it.
    TaskPolled(bool, T),
    /// The tasks spawned since the last look, oldest first.
    Spawned(Vec<T>),
    /// The tokens of the readiness events of one wait, in the order reported.
    Woken(Vec<usize>),
}

/// What the run loop asks for next.
pub enum LoopAction<T> {
    /// Poll the main future under the main token.
    PollMain,
    /// Register the interest left by the last poll under this token.
    Register(usize),
    /// Poll the given task under the given token; it returns with the next event.
    PollTask(usize, T),
    /// Take the tasks spawned since the last look.
    AdoptSpawned,
    /// Wait for readiness events, at most this many milliseconds when given.
    Wait(Option<u64>),
    /// The main future finished: the loop is over.
    Return,
}

/// Where the run loop stands.
#[derive(PartialEq, Eq, Structural, Debug, Clone, Copy)]
pub enum Phase {
    Idle,
    PollingMain,
    RegisteringMain,
    PollingTask(usize),
    RegisteringTask(usize),
    Adopting,
    Waiting,
    Returned,
}

/// The run loop's state: its task table, the rest of the current polling
/// round, and its phase.
pub struct RunLoop<T> {
    sched: Scheduler<T>,
    round: Vec<(usize, T)>,
    phase: Phase,
}

/// `round` lists the tasks of `m` exactly once each, with their tokens.
pub open spec fn lists<T>(round: Seq<(usize, T)>, m: Map<usize, T>) -> bool {
    &&& round.len() == m.len()
    &&& forall|i: int|
        #![trigger round[i]]
        0 <= i < round.len() ==> m.contains_key(round[i].0) && m[round[i].0] == round[i].1
    &&& forall|k: usize|
        #[trigger] m.contains_key(k) ==> exists|i: int| 0 <= i < round.len() && #[trigger] round[i].0 == k
    &&& forall|i: int, j: int| 0 <= i < round.len() && 0 <= j < round.len() && i != j ==> round[i].0 != round[j].0
}

/// The ready and parked tasks after the events for `toks`, taken in order:
/// an event for a parked task other than the main one makes it ready.
pub open spec fn after_wakes<T>(ready: Map<usize, T>, parked: Map<usize, T>, toks: Seq<usize>) -> (Map<usize, T>, Map<usize, T>)
    decreases toks.len(),
{
    if toks.len() == 0 {
        (ready, parked)
    } else {
        let (r, p) = after_wakes(ready, parked, toks.drop_last());
        let t = toks.last();
        if t != MAIN_TASK && p.contains_key(t) {
            (r.insert(t, p[t]), p.remove(t))
        } else {
            (r, p)
        }
    }
}

/// The fresh tokens that a batch of `n` tasks receives after token `last`.
pub open spec fn fresh_tokens(last: nat, n: nat) -> Seq<usize> {
    Seq::new(n, |i: int| (last + 1 + i) as usize)
}

impl<T> RunLoop<T> {
    /// The task table.
    pub closed spec fn table(&self) -> Scheduler<T> {
        self.sched
    }

    /// The tasks of the current round not handed out yet; the next one
    /// handed out is the last.
    pub closed spec fn pending(&self) -> Seq<(usize, T)> {
        self.round@
    }

    /// Where the loop stands.
    pub closed spec fn phase(&self) -> Phase {
        self.phase
    }

    /// Whether `k` is the token of a task still to be handed out this round.
    pub open spec fn pending_has(&self, k: usize) -> bool {
        exists|m: int| 0 <= m < self.pending().len() && #[trigger] self.pending()[m].0 == k
    }

    /// The loop's invariant: the table is well formed, and the tasks being
    /// polled are exactly those of the current round not yet given back.
    pub open spec fn wf(&self) -> bool {
        &&& self.table().wf()
        &&& forall|i: int, j: int|
            0 <= i < self.pending().len() && 0 <= j < self.pending().len() && i != j
                ==> self.pending()[i].0 != self.pending()[j].0
        &&& forall|k: usize|
            #[trigger] self.table().in_poll().contains(k) <==> (self.pending_has(k)
                || self.phase() == Phase::PollingTask(k))
        &&& forall|k: usize| self.phase() == Phase::PollingTask(k) ==> !self.pending_has(k)
        &&& !(self.phase() is PollingTask || self.phase() is RegisteringTask) ==> self.pending().len() == 0
    }

    /// The event the loop waits for in its phase; a loop that returned can be
    /// started again.
    pub open spec fn expects(&self, ev: LoopEvent<T>) -> bool {
        match self.phase() {
            Phase::Idle => ev is Begin,
            Phase::PollingMain => ev is MainPolled,
            Phase::RegisteringMain => ev is Registered,
            Phase::PollingTask(_) => ev is TaskPolled,
            Phase::RegisteringTask(_) => ev is Registered,
            Phase::Adopting => ev is Spawned,
            Phase::Waiting => ev is Woken,
            Phase::Returned => ev is Begin,
        }
    }

    /// `post` holds a table with the same tasks as `s`.
    pub open spec fn same_table(s: Scheduler<T>, t: Scheduler<T>) -> bool {
        &&& t.ready() == s.ready()
        &&& t.parked() == s.parked()
        &&& t.in_poll() == s.in_poll()
        &&& t.last_token() == s.last_token()
    }

    /// `post` goes on with the round whose rest is `pending`: the last task
    /// of it is handed out, or, with none left, the spawned tasks are
    /// adopted.
    pub open spec fn goes_on(post: Self, pending: Seq<(usize, T)>, a: LoopAction<T>) -> bool {
        if pending.len() == 0 {
            &&& a is AdoptSpawned
            &&& post.phase() == Phase::Adopting
            &&& post.pending().len() == 0
        } else {
            &&& a == LoopAction::PollTask(pending.last().0, pending.last().1)
            &&& post.phase() == Phase::PollingTask(pending.last().0)
            &&& post.pending() == pending.drop_last()
        }
    }

    /// `post` starts a round over the ready tasks `ready`: each is handed
    /// out exactly once, the first right away.
    pub open spec fn starts_round(post: Self, ready: Map<usize, T>, parked: Map<usize, T>, last: nat, a: LoopAction<T>) -> bool {
        &&& post.table().ready() == Map::<usize, T>::empty()
        &&& post.table().parked() == parked
        &&& post.table().last_token() == last
        &&& post.table().in_poll() == ready.dom()
        &&& if ready.len() == 0 {
            &&& a is AdoptSpawned
            &&& post.phase() == Phase::Adopting
            &&& post.pending().len() == 0
        } else {
            &&& a matches LoopAction::PollTask(t, task)
            &&& post.phase() == Phase::PollingTask(t)
            &&& lists(post.pending().push((t, task)), ready)
        }
    }

    /// `post` and the action `a` follow from `self` on the event `ev`: the
    /// contract of one step of the loop.
    pub open spec fn stepped(self, post: Self, ev: LoopEvent<T>, a: LoopAction<T>) -> bool {
        match ev {
            LoopEvent::Begin => {
                &&& a is PollMain
                &&& post.phase() == Phase::PollingMain
                &&& Self::same_table(self.table(), post.table())
                &&& post.pending().len() == 0
            },
            LoopEvent::MainPolled(done) => {
                &&& Self::same_table(self.table(), post.table())
                &&& post.pending().len() == 0
                &&& if done {
                    a is Return && post.phase() == Phase::Returned
                } else {
                    a == LoopAction::<T>::Register(MAIN_TASK) && post.phase() == Phase::RegisteringMain
                }
            },
            LoopEvent::Registered => if self.phase() == Phase::RegisteringMain {
                Self::starts_round(
                    post,
                    self.table().ready(),
                    self.table().parked(),
                    self.table().last_token(),
                    a,
                )
            } else {
                &&& Self::same_table(self.table(), post.table())
                &&& Self::goes_on(post, self.pending(), a)
            },
            LoopEvent::TaskPolled(done, task) => match self.phase() {
                Phase::PollingTask(t) => {
                    &&& self.table().settled(post.table(), t, task, done, Ok(()))
                    &&& if done {
                        Self::goes_on(post, self.pending(), a)
                    } else {
                        &&& a == LoopAction::<T>::Register(t)
                        &&& post.phase() == Phase::RegisteringTask(t)
                        &&& post.pending() == self.pending()
                    }
                },
                _ => false,
            },
            LoopEvent::Spawned(tasks) => {
                &&& self.table().batch_added(
                    post.table(),
                    tasks@,
                    fresh_tokens(self.table().last_token(), tasks@.len()),
                )
                &&& a == LoopAction::<T>::Wait(
                    if post.table().ready().is_empty() {
                        None
                    } else {
                        Some(BUSY_POLL_MS)
                    },
                )
                &&& post.phase() == Phase::Waiting
                &&& post.pending().len() == 0
            },
            LoopEvent::Woken(toks) => {
                let (r, p) = after_wakes(self.table().ready(), self.table().parked(), toks@);
                if toks@.contains(MAIN_TASK) {
                    &&& a is PollMain
                    &&& post.phase() == Phase::PollingMain
                    &&& post.pending().len() == 0
                    &&& post.table().ready() == r
                    &&& post.table().parked() == p
                    &&& post.table().in_poll() == self.table().in_poll()
                    &&& post.table().last_token() == self.table().last_token()
                } else {
                    Self::starts_round(post, r, p, self.table().last_token(), a)
                }
            },
        }
    }

    /// A loop that has not started: no tasks, nothing polled.
    pub fn new() -> (l: Self)
        ensures
            l.wf(),
            l.phase() == Phase::Idle,
            l.table().ready() == Map::<usize, T>::empty(),
            l.table().parked() == Map::<usize, T>::empty(),
            l.table().last_token() == MAIN_TASK,
    {
        RunLoop { sched: Scheduler::new(), round: Vec::new(), phase: Phase::Idle }
    }

    /// The last token handed out to a spawned task.
    pub fn last_token_issued(&self) -> (t: usize)
        ensures
            t == self.table().last_token(),
    {
        self.sched.last_token_issued()
    }

    fn next_in_round(&mut self) -> (a: LoopAction<T>)
        requires
            old(self).table().wf(),
            forall|i: int, j: int|
                0 <= i < old(self).pending().len() && 0 <= j < old(self).pending().len() && i != j
                    ==> old(self).pending()[i].0 != old(self).pending()[j].0,
            forall|k: usize|
                #[trigger] old(self).table().in_poll().contains(k) <==> old(self).pending_has(k),
        ensures
            final(self).wf(),
            final(self).table() == old(self).table(),
            Self::goes_on(*final(self), old(self).pending(), a),
    {
        let ghost pend = self.round@;
        match self.round.pop() {
            Some((t, task)) => {
                self.phase = Phase::PollingTask(t);
                proof {
                    assert(pend =~= self.round@.push((t, task)));
                    assert forall|k: usize| #[trigger] self.sched.in_poll().contains(k) <==> (
                    self.pending_has(k) || self.phase() == Phase::PollingTask(k)) by {
                        if self.pending_has(k) {
                            let m: int = choose|m: int|
                                0 <= m < self.pending().len() && #[trigger] self.pending()[m].0 == k;
                            assert(pend[m].0 == k);
                        }
                        if old(self).pending_has(k) {
                            let m: int = choose|m: int|
                                0 <= m < pend.len() && #[trigger] pend[m].0 == k;
                            if m < pend.len() - 1 {
                                assert(self.pending()[m].0 == k);
                            }
                        }
                        if k == t {
                            assert(pend[pend.len() - 1].0 == k);
                        }
                    }
                    assert forall|k: usize| self.phase() == Phase::PollingTask(k) implies !self.pending_has(k) by {
                        if self.pending_has(k) {
                            let m: int = choose|m: int|
                                0 <= m < self.pending().len() && #[trigger] self.pending()[m].0 == k;
                            assert(pend[m].0 == pend[pend.len() - 1].0);
                        }
                    }
                }
                LoopAction::PollTask(t, task)
            },
            None => {
                self.phase = Phase::Adopting;
                LoopAction::AdoptSpawned
            },
        }
    }

    fn start_round(&mut self) -> (a: LoopAction<T>)
        requires
            old(self).table().wf(),
            old(self).pending().len() == 0,
            forall|k: usize| !(#[trigger] old(self).table().in_poll().contains(k)),
        ensures
            final(self).wf(),
            Self::starts_round(
                *final(self),
                old(self).table().ready(),
                old(self).table().parked(),
                old(self).table().last_token(),
                a,
            ),
    {
        let ghost ready = self.sched.ready();
        let round = self.sched.take_ready();
        self.round = round;
        proof {
            assert(self.table().in_poll() =~= ready.dom());
            assert forall|k: usize| #[trigger] self.table().in_poll().contains(k) <==> self.pending_has(k) by {
                if ready.contains_key(k) {
                    let m: int = choose|m: int| 0 <= m < self.round@.len() && #[trigger] self.round@[m].0 == k;
                    assert(self.pending()[m].0 == k);
                }
                if self.pending_has(k) {
                    let m: int = choose|m: int|
                        0 <= m < self.pending().len() && #[trigger] self.pending()[m].0 == k;
                    assert(self.round@[m] == self.pending()[m]);
                }
            }
        }
        let ghost whole = self.round@;
        let a = self.next_in_round();
        proof {
            if whole.len() > 0 {
                assert(whole =~= self.pending().push((whole.last().0, whole.last().1)));
            }
        }
        a
    }

    fn wake_all(&mut self, toks: &Vec<usize>) -> (fired: bool)
        requires
            old(self).table().wf(),
        ensures
            final(self).table().wf(),
            fired == toks@.contains(MAIN_TASK),
            (final(self).table().ready(), final(self).table().parked()) == after_wakes(
                old(self).table().ready(),
                old(self).table().parked(),
                toks@,
            ),
            final(self).table().in_poll() == old(self).table().in_poll(),
            final(self).table().last_token() == old(self).table().last_token(),
            final(self).pending() == old(self).pending(),
            final(self).phase() == old(self).phase(),
    {
        let ghost r0 = self.sched.ready();
        let ghost p0 = self.sched.parked();
        let mut fired = false;
        let mut i: usize = 0;
        while i < toks.len()
            invariant
                i <= toks@.len(),
                self.sched.wf(),
                fired == toks@.take(i as int).contains(MAIN_TASK),
                (self.sched.ready(), self.sched.parked()) == after_wakes(r0, p0, toks@.take(i as int)),
                self.sched.in_poll() == old(self).table().in_poll(),
                self.sched.last_token() == old(self).table().last_token(),
                self.round@ == old(self).pending(),
                self.phase == old(self).phase(),
            decreases toks@.len() - i,
        {
            let t: usize = toks[i];
            let w = self.sched.wake(t);
            proof {
                let next = toks@.take(i + 1);
                assert(next.drop_last() =~= toks@.take(i as int));
                assert(next.last() == t);
                if t == MAIN_TASK {
                    assert(next[i as int] == t);
                }
                if next.contains(MAIN_TASK) && t != MAIN_TASK {
                    let m: int = choose|m: int| 0 <= m < next.len() && next[m] == MAIN_TASK;
                    assert(toks@.take(i as int)[m] == MAIN_TASK);
                }
                if toks@.take(i as int).contains(MAIN_TASK) {
                    let m: int = choose|m: int| 0 <= m < i && toks@.take(i as int)[m] == MAIN_TASK;
                    assert(next[m] == MAIN_TASK);
                }
            }
            if w == Wake::Main {
                fired = true;
            }
            i = i + 1;
        }
        proof {
            assert(toks@.take(toks@.len() as int) =~= toks@);
        }
        fired
    }

    /// Takes in what happened and says what to do next: the main future is
    /// polled at the start and again after each wait that reported an event
    /// for it; after a poll of it that is not done its interest is
    /// registered; then every ready task is polled once, the interest of each
    /// one not done registered and the task parked, a finished one dropped;
    /// then the spawned tasks are adopted and the loop waits, briefly while
    /// tasks are ready; the events of the wait make parked tasks ready, and a
    /// new round starts unless the main future is to be polled first.
    pub fn step(&mut self, ev: LoopEvent<T>) -> (a: LoopAction<T>)
        requires
            old(self).wf(),
            old(self).expects(ev),
            ev matches LoopEvent::Spawned(tasks) ==> old(self).table().last_token() + tasks@.len()
                <= usize::MAX,
        ensures
            final(self).wf(),
            old(self).stepped(*final(self), ev, a),
    {
        proof {
            assert forall|k: usize| !(old(self).phase() is PollingTask || old(self).phase() is RegisteringTask)
                implies !(#[trigger] old(self).table().in_poll().contains(k)) by {
                assert(old(self).table().in_poll().contains(k) <==> (old(self).pending_has(k)
                    || old(self).phase() == Phase::PollingTask(k)));
            }
        }
        match ev {
            LoopEvent::Begin => {
                self.phase = Phase::PollingMain;
                LoopAction::PollMain
            },
            LoopEvent::MainPolled(done) => {
                if done {
                    self.phase = Phase::Returned;
                    LoopAction::Return
                } else {
                    self.phase = Phase::RegisteringMain;
                    LoopAction::Register(MAIN_TASK)
                }
            },
            LoopEvent::Registered => {
                if self.phase == Phase::RegisteringMain {
                    self.start_round()
                } else {
                    self.next_in_round()
                }
            },
            LoopEvent::TaskPolled(done, task) => {
                let t: usize = match self.phase {
                    Phase::PollingTask(t) => t,
                    _ => 0,
                };
                let ghost pend = self.round@;
                let r = self.sched.settle(t, task, done);
                proof {
                    assert(self.round@ == old(self).pending());
                    assert(old(self).table().in_poll().contains(t));
                    assert(r is Ok);
                    assert(old(self).phase() == Phase::PollingTask(t));
                    assert(!old(self).pending_has(t));
                    assert(self.sched.in_poll() == old(self).table().in_poll().remove(t));
                    assert forall|k: usize| #[trigger] self.sched.in_poll().contains(k) <==> self.pending_has(k) by {
                        assert(old(self).table().in_poll().contains(k) <==> (old(self).pending_has(k)
                            || old(self).phase() == Phase::PollingTask(k)));
                        assert(self.pending_has(k) == old(self).pending_has(k));
                    }
                }
                if done {
                    self.next_in_round()
                } else {
                    self.phase = Phase::RegisteringTask(t);
                    LoopAction::Register(t)
                }
            },
            LoopEvent::Spawned(tasks) => {
                let ghost ts = tasks@;
                let ghost last = self.sched.last_token();
                let toks = self.sched.add_tasks(tasks);
                proof {
                    assert(toks@ =~= fresh_tokens(last, ts.len()));
                }
                self.phase = Phase::Waiting;
                LoopAction::Wait(self.sched.poll_timeout_ms())
            },
            LoopEvent::Woken(toks) => {
                let fired = self.wake_all(&toks);
                if fired {
                    self.phase = Phase::PollingMain;
                    LoopAction::PollMain
                } else {
                    self.start_round()
                }
            },
        }
    }
}

/// The tasks a step hands out in the round it starts: the one handed out
/// now and the rest, or none.
pub open spec fn round_after<T>(post: RunLoop<T>, a: LoopAction<T>) -> Seq<(usize, T)> {
    match a {
        LoopAction::PollTask(t, task) => post.pending().push((t, task)),
        _ => Seq::empty(),
    }
}

proof fn lemma_after_wakes<T>(ready: Map<usize, T>, parked: Map<usize, T>, toks: Seq<usize>, tok: usize)
    requires
        ready.dom().disjoint(parked.dom()),
        tok != MAIN_TASK,
    ensures
        ({
            let (r, p) = after_wakes(ready, parked, toks);
            &&& r.dom().disjoint(p.dom())
            &&& ready.dom().finite() ==> r.dom().finite()
            &&& forall|k: usize|
                (#[trigger] r.contains_key(k) || #[trigger] p.contains_key(k)) ==> ready.contains_key(k)
                    || parked.contains_key(k)
            &&& forall|k: usize|
                (#[trigger] ready.contains_key(k) || #[trigger] parked.contains_key(k)) ==> r.contains_key(k)
                    || p.contains_key(k)
            &&& forall|k: usize| #[trigger] ready.contains_key(k) ==> r.contains_key(k) && r[k] == ready[k]
            &&& parked.contains_key(tok) && toks.contains(tok) ==> r.contains_key(tok) && r[tok]
                == parked[tok]
            &&& parked.contains_key(tok) && !toks.contains(tok) ==> p.contains_key(tok) && p[tok]
                == parked[tok]
        }),
    decreases toks.len(),
{
    if toks.len() > 0 {
        let prev = toks.drop_last();
        lemma_after_wakes(ready, parked, prev, tok);
        let t = toks.last();
        if toks.contains(tok) && !prev.contains(tok) {
            assert(t == tok) by {
                let m: int = choose|m: int| 0 <= m < toks.len() && toks[m] == tok;
                if m < toks.len() - 1 {
                    assert(prev[m] == tok);
                }
            }
        }
        if prev.contains(tok) {
            let m: int = choose|m: int| 0 <= m < prev.len() && prev[m] == tok;
            assert(toks[m] == tok);
        }
    }
}

/// The main future is polled exactly at the start of the loop and after a
/// wait that reported an event for the main token, never otherwise.
pub proof fn law_main_polled_only_after_its_event<T>(
    l0: RunLoop<T>,
    l1: RunLoop<T>,
    ev: LoopEvent<T>,
    a: LoopAction<T>,
)
    requires
        l0.wf(),
        l0.expects(ev),
        l0.stepped(l1, ev, a),
    ensures
        (a is PollMain) <==> (ev is Begin || (ev matches LoopEvent::Woken(ts) && ts@.contains(
            MAIN_TASK,
        ))),
{
}

/// A parked task whose token a wait reports is polled again, unchanged, in
/// the first round after that wait: in the round the step starts, or, when
/// the main future is polled first, in the round after it, where it is
/// ready.
pub proof fn law_woken_task_polled_in_next_round<T>(
    l1: RunLoop<T>,
    l2: RunLoop<T>,
    toks: Vec<usize>,
    a: LoopAction<T>,
    tok: usize,
)
    requires
        l1.wf(),
        l1.expects(LoopEvent::Woken(toks)),
        l1.stepped(l2, LoopEvent::Woken(toks), a),
        l1.table().parked().contains_key(tok),
        toks@.contains(tok),
    ensures
        a is PollMain ==> l2.table().ready().contains_key(tok) && l2.table().ready()[tok]
            == l1.table().parked()[tok],
        !(a is PollMain) ==> round_after(l2, a).contains((tok, l1.table().parked()[tok])),
{
    let s = l1.table();
    lemma_after_wakes(s.ready(), s.parked(), toks@, tok);
    let (r, p) = after_wakes(s.ready(), s.parked(), toks@);
    if !(a is PollMain) {
        assert(r.contains_key(tok));
        assert(r.len() > 0);
        assert(!toks@.contains(MAIN_TASK));
        assert(RunLoop::starts_round(l2, r, p, s.last_token(), a));
        let whole = round_after(l2, a);
        assert(whole == l2.pending().push((a->PollTask_0, a->PollTask_1)));
        let m: int = choose|m: int| 0 <= m < whole.len() && #[trigger] whole[m].0 == tok;
        assert(whole[m] == (tok, s.parked()[tok]));
    }
}

/// Spawned tasks wait exactly one short wait: after they are adopted the
/// loop waits at most one poll interval, and each of them is polled,
/// unchanged, in the first round after that wait (after the main future, if
/// the wait reported an event for it).
pub proof fn law_spawned_tasks_wait_one_short_wait<T>(
    l0: RunLoop<T>,
    l1: RunLoop<T>,
    l2: RunLoop<T>,
    tasks: Vec<T>,
    toks: Vec<usize>,
    a1: LoopAction<T>,
    a2: LoopAction<T>,
)
    requires
        l0.wf(),
        l1.wf(),
        l0.expects(LoopEvent::Spawned(tasks)),
        l0.stepped(l1, LoopEvent::Spawned(tasks), a1),
        l1.stepped(l2, LoopEvent::Woken(toks), a2),
        tasks@.len() > 0,
    ensures
        a1 == LoopAction::<T>::Wait(Some(BUSY_POLL_MS)),
        forall|i: int|
            0 <= i < tasks@.len() ==> {
                let k = (l0.table().last_token() + 1 + i) as usize;
                &&& a2 is PollMain ==> l2.table().ready().contains_key(k) && l2.table().ready()[k]
                    == tasks@[i]
                &&& !(a2 is PollMain) ==> round_after(l2, a2).contains((k, #[trigger] tasks@[i]))
            },
{
    let s = l1.table();
    let toks0 = fresh_tokens(l0.table().last_token(), tasks@.len());
    assert(s.ready().contains_key(toks0[0]));
    assert(!s.ready().is_empty());
    lemma_after_wakes(s.ready(), s.parked(), toks@, 2usize);
    let (r, p) = after_wakes(s.ready(), s.parked(), toks@);
    assert forall|i: int| 0 <= i < tasks@.len() implies {
        let k = (l0.table().last_token() + 1 + i) as usize;
        &&& a2 is PollMain ==> l2.table().ready().contains_key(k) && l2.table().ready()[k] == tasks@[i]
        &&& !(a2 is PollMain) ==> round_after(l2, a2).contains((k, #[trigger] tasks@[i]))
    } by {
        let k = (l0.table().last_token() + 1 + i) as usize;
        assert(toks0[i] == k);
        assert(s.ready().contains_key(k) && s.ready()[k] == tasks@[i]);
        if !(a2 is PollMain) {
            assert(r.contains_key(k));
            assert(r.len() > 0);
            assert(!toks@.contains(MAIN_TASK));
            assert(RunLoop::starts_round(l2, r, p, s.last_token(), a2));
            let whole = round_after(l2, a2);
            assert(whole == l2.pending().push((a2->PollTask_0, a2->PollTask_1)));
            let m: int = choose|m: int| 0 <= m < whole.len() && #[trigger] whole[m].0 == k;
            assert(whole[m] == (k, tasks@[i]));
        }
    }
}

/// `ls` are the states of a run of the loop, and `evs` and `acts` the event
/// taken in and the action asked for at each step, in the order the loop
/// expects them.
pub open spec fn is_run<T>(ls: Seq<RunLoop<T>>, evs: Seq<LoopEvent<T>>, acts: Seq<LoopAction<T>>) -> bool {
    &&& ls.len() == evs.len() + 1
    &&& acts.len() == evs.len()
    &&& forall|j: int| 0 <= j < ls.len() ==> (#[trigger] ls[j]).wf()
    &&& forall|j: int|
        #![trigger evs[j]]
        0 <= j < evs.len() ==> ls[j].expects(evs[j]) && ls[j].stepped(ls[j + 1], evs[j], acts[j])
}

/// The tasks adopted by the first `n` steps of a run, in order.
pub open spec fn adopted<T>(evs: Seq<LoopEvent<T>>, n: int) -> Seq<T>
    decreases n,
{
    if n <= 0 {
        Seq::empty()
    } else {
        adopted(evs, n - 1) + match evs[n - 1] {
            LoopEvent::Spawned(ts) => ts@,
            _ => Seq::empty(),
        }
    }
}

proof fn lemma_run_step<T>(ls: Seq<RunLoop<T>>, evs: Seq<LoopEvent<T>>, acts: Seq<LoopAction<T>>, j: int)
    requires
        is_run(ls, evs, acts),
        0 <= j < evs.len(),
    ensures
        ls[j].wf(),
        ls[j + 1].wf(),
        ls[j].expects(evs[j]),
        ls[j].stepped(ls[j + 1], evs[j], acts[j]),
{
    assert(ls[j].expects(evs[j]));
    let q: int = j + 1;
    assert(ls[q].wf());
}

proof fn lemma_step_facts<T>(l0: RunLoop<T>, l1: RunLoop<T>, ev: LoopEvent<T>, a: LoopAction<T>)
    requires
        l0.wf(),
        l1.wf(),
        l0.expects(ev),
        l0.stepped(l1, ev, a),
    ensures
        l1.table().last_token() == l0.table().last_token() + match ev {
            LoopEvent::Spawned(ts) => ts@.len(),
            _ => 0,
        },
        forall|k: usize|
            #[trigger] l1.table().known().contains(k) ==> l0.table().known().contains(k)
                || l0.table().last_token() < k,
        a matches LoopAction::PollTask(t, _) ==> l1.table().in_poll().contains(t),
        forall|tok: usize|
            #[trigger] l0.table().parked().contains_key(tok) && !(ev matches LoopEvent::Woken(ts)
                && ts@.contains(tok)) ==> l1.table().parked().contains_key(tok)
                && l1.table().parked()[tok] == l0.table().parked()[tok],
{
    let s0 = l0.table();
    let s1 = l1.table();
    match ev {
        LoopEvent::Woken(ts) => {
            assert forall|tok: usize| #[trigger] s0.parked().contains_key(tok) && !ts@.contains(tok)
                implies s1.parked().contains_key(tok) && s1.parked()[tok] == s0.parked()[tok] by {
                lemma_after_wakes(s0.ready(), s0.parked(), ts@, tok);
            }
            lemma_after_wakes(s0.ready(), s0.parked(), ts@, 2usize);
        },
        LoopEvent::TaskPolled(done, task) => {
            assert forall|tok: usize| #[trigger] s0.parked().contains_key(tok) implies s1.parked().contains_key(tok)
                && s1.parked()[tok] == s0.parked()[tok] by {
                match l0.phase() {
                    Phase::PollingTask(t) => {
                        assert(s0.in_poll().contains(t));
                    },
                    _ => {},
                }
            }
        },
        _ => {},
    }
    if a is PollTask {
        assert(l1.phase() == Phase::PollingTask(a->PollTask_0));
    }
}

proof fn lemma_last_token_counts_adopted<T>(
    ls: Seq<RunLoop<T>>,
    evs: Seq<LoopEvent<T>>,
    acts: Seq<LoopAction<T>>,
    n: int,
)
    requires
        is_run(ls, evs, acts),
        ls[0].table().last_token() == MAIN_TASK,
        0 <= n <= evs.len(),
    ensures
        ls[n].table().last_token() == MAIN_TASK + adopted(evs, n).len(),
    decreases n,
{
    if n > 0 {
        lemma_last_token_counts_adopted(ls, evs, acts, n - 1);
        lemma_run_step(ls, evs, acts, n - 1);
        lemma_step_facts(ls[n - 1], ls[n], evs[n - 1], acts[n - 1]);
    }
}

/// Tokens are numbered by adoption over the whole run: in a run that starts
/// from a new loop, the token of the last task handed out is the main token
/// plus the number of tasks adopted so far, and the task adopted `i`-th
/// overall (counting from zero) is entered under the token `MAIN_TASK + 1 +
/// i`, in the order of the batches and within each batch.
pub proof fn law_token_numbering<T>(ls: Seq<RunLoop<T>>, evs: Seq<LoopEvent<T>>, acts: Seq<LoopAction<T>>)
    requires
        is_run(ls, evs, acts),
        ls[0].table().last_token() == MAIN_TASK,
    ensures
        forall|n: int|
            0 <= n <= evs.len() ==> #[trigger] ls[n].table().last_token() == MAIN_TASK + adopted(
                evs,
                n,
            ).len(),
        forall|j: int, m: int|
            #![trigger evs[j]->Spawned_0@[m]]
            0 <= j < evs.len() && evs[j] is Spawned && 0 <= m < evs[j]->Spawned_0@.len() ==> {
                let i = adopted(evs, j).len() + m;
                &&& adopted(evs, j + 1)[i] == evs[j]->Spawned_0@[m]
                &&& ls[j + 1].table().ready().contains_key((MAIN_TASK + 1 + i) as usize)
                &&& ls[j + 1].table().ready()[(MAIN_TASK + 1 + i) as usize] == evs[j]->Spawned_0@[m]
            },
{
    assert forall|n: int| 0 <= n <= evs.len() implies #[trigger] ls[n].table().last_token() == MAIN_TASK
        + adopted(evs, n).len() by {
        lemma_last_token_counts_adopted(ls, evs, acts, n);
    }
    assert forall|j: int, m: int|
        #![trigger evs[j]->Spawned_0@[m]]
        0 <= j < evs.len() && evs[j] is Spawned && 0 <= m < evs[j]->Spawned_0@.len() implies {
            let i = adopted(evs, j).len() + m;
            &&& adopted(evs, j + 1)[i] == evs[j]->Spawned_0@[m]
            &&& ls[j + 1].table().ready().contains_key((MAIN_TASK + 1 + i) as usize)
            &&& ls[j + 1].table().ready()[(MAIN_TASK + 1 + i) as usize] == evs[j]->Spawned_0@[m]
        } by {
        lemma_last_token_counts_adopted(ls, evs, acts, j);
        lemma_run_step(ls, evs, acts, j);
        let ts = evs[j]->Spawned_0@;
        let toks = fresh_tokens(ls[j].table().last_token(), ts.len());
        assert(toks[m] == (MAIN_TASK + 1 + adopted(evs, j).len() + m) as usize);
        assert(adopted(evs, j + 1) == adopted(evs, j) + ts);
    }
}

proof fn lemma_forgotten_in_run<T>(
    ls: Seq<RunLoop<T>>,
    evs: Seq<LoopEvent<T>>,
    acts: Seq<LoopAction<T>>,
    i: int,
    tok: usize,
    j: int,
)
    requires
        is_run(ls, evs, acts),
        0 <= i < evs.len(),
        evs[i] matches LoopEvent::TaskPolled(done, _) && done,
        ls[i].phase() == Phase::PollingTask(tok),
        i < j <= evs.len(),
    ensures
        !ls[j].table().known().contains(tok),
        tok <= ls[j].table().last_token(),
    decreases j - i,
{
    if j == i + 1 {
        lemma_run_step(ls, evs, acts, i);
        assert(ls[i].table().in_poll().contains(tok));
    } else {
        lemma_forgotten_in_run(ls, evs, acts, i, tok, j - 1);
        lemma_run_step(ls, evs, acts, j - 1);
        lemma_step_facts(ls[j - 1], ls[j], evs[j - 1], acts[j - 1]);
    }
}

/// A task whose poll came back finished is never polled again in the rest
/// of the run.
pub proof fn law_finished_task_never_polled_again_in_run<T>(
    ls: Seq<RunLoop<T>>,
    evs: Seq<LoopEvent<T>>,
    acts: Seq<LoopAction<T>>,
    i: int,
    tok: usize,
)
    requires
        is_run(ls, evs, acts),
        0 <= i < evs.len(),
        evs[i] matches LoopEvent::TaskPolled(done, _) && done,
        ls[i].phase() == Phase::PollingTask(tok),
    ensures
        forall|j: int|
            i < j < evs.len() ==> !((#[trigger] acts[j]) matches LoopAction::PollTask(t, _) && t == tok),
{
    assert forall|j: int| i < j < evs.len() implies !((#[trigger] acts[j]) matches LoopAction::PollTask(
        t,
        _,
    ) && t == tok) by {
        lemma_forgotten_in_run(ls, evs, acts, i, tok, j + 1);
        lemma_run_step(ls, evs, acts, j);
        lemma_step_facts(ls[j], ls[j + 1], evs[j], acts[j]);
    }
}

proof fn lemma_parked_in_run<T>(
    ls: Seq<RunLoop<T>>,
    evs: Seq<LoopEvent<T>>,
    acts: Seq<LoopAction<T>>,
    i: int,
    k: int,
    tok: usize,
    j: int,
)
    requires
        is_run(ls, evs, acts),
        0 <= i <= k <= evs.len(),
        ls[i].table().parked().contains_key(tok),
        forall|m: int| i <= m < k ==> !((#[trigger] evs[m]) matches LoopEvent::Woken(ts) && ts@.contains(tok)),
        i <= j <= k,
    ensures
        ls[j].table().parked().contains_key(tok),
        ls[j].table().parked()[tok] == ls[i].table().parked()[tok],
    decreases j - i,
{
    if j > i {
        lemma_parked_in_run(ls, evs, acts, i, k, tok, j - 1);
        lemma_run_step(ls, evs, acts, j - 1);
        assert(!(evs[j - 1] matches LoopEvent::Woken(ts) && ts@.contains(tok)));
        lemma_step_facts(ls[j - 1], ls[j], evs[j - 1], acts[j - 1]);
    }
}

/// A parked task is handed out only after a wait reports its token: as long
/// as no event for its token comes, it stays parked, unchanged, and no step
/// polls it.
pub proof fn law_parked_task_polled_only_after_its_event_in_run<T>(
    ls: Seq<RunLoop<T>>,
    evs: Seq<LoopEvent<T>>,
    acts: Seq<LoopAction<T>>,
    i: int,
    k: int,
    tok: usize,
)
    requires
        is_run(ls, evs, acts),
        0 <= i <= k <= evs.len(),
        ls[i].table().parked().contains_key(tok),
        forall|m: int| i <= m < k ==> !((#[trigger] evs[m]) matches LoopEvent::Woken(ts) && ts@.contains(tok)),
    ensures
        forall|j: int|
            i <= j <= k ==> (#[trigger] ls[j]).table().parked().contains_key(tok)
                && ls[j].table().parked()[tok] == ls[i].table().parked()[tok],
        forall|j: int|
            i <= j < k ==> !((#[trigger] acts[j]) matches LoopAction::PollTask(t, _) && t == tok),
{
    assert forall|j: int| i <= j <= k implies (#[trigger] ls[j]).table().parked().contains_key(tok)
        && ls[j].table().parked()[tok] == ls[i].table().parked()[tok] by {
        lemma_parked_in_run(ls, evs, acts, i, k, tok, j);
    }
    assert forall|j: int| i <= j < k implies !((#[trigger] acts[j]) matches LoopAction::PollTask(t, _)
        && t == tok) by {
        lemma_parked_in_run(ls, evs, acts, i, k, tok, j + 1);
        lemma_run_step(ls, evs, acts, j);
        lemma_step_facts(ls[j], ls[j + 1], evs[j], acts[j]);
    }
}

/// A task whose poll came back not ready is parked under its token and not
/// polled again until a wait reports that token.
pub proof fn law_unfinished_task_polled_only_after_its_event<T>(
    ls: Seq<RunLoop<T>>,
    evs: Seq<LoopEvent<T>>,
    acts: Seq<LoopAction<T>>,
    i: int,
    k: int,
    tok: usize,
)
    requires
        is_run(ls, evs, acts),
        0 <= i < k <= evs.len(),
        evs[i] matches LoopEvent::TaskPolled(done, _) && !done,
        ls[i].phase() == Phase::PollingTask(tok),
        forall|m: int| i < m < k ==> !((#[trigger] evs[m]) matches LoopEvent::Woken(ts) && ts@.contains(tok)),
    ensures
        ls[i + 1].table().parked().contains_key(tok),
        ls[i + 1].table().parked()[tok] == evs[i]->TaskPolled_1,
        forall|j: int|
            i <= j < k ==> !((#[trigger] acts[j]) matches LoopAction::PollTask(t, _) && t == tok),
{
    lemma_run_step(ls, evs, acts, i);
    assert(ls[i].table().in_poll().contains(tok));
    law_parked_task_polled_only_after_its_event_in_run(ls, evs, acts, i + 1, k, tok);
    assert forall|j: int| i <= j < k implies !((#[trigger] acts[j]) matches LoopAction::PollTask(t, _)
        && t == tok) by {
        if j > i {
            assert(!(acts[j] matches LoopAction::PollTask(t, _) && t == tok));
        }
    }
}

/// A task that comes back not done has its interest registered under its
/// own token at once, before any other task is polled and whatever is left
/// of the round; it is parked under that token, unchanged, and the rest of
/// the round is kept.
pub proof fn law_not_ready_task_registers_at_once<T>(
    l0: RunLoop<T>,
    l1: RunLoop<T>,
    task: T,
    a: LoopAction<T>,
)
    requires
        l0.wf(),
        l0.expects(LoopEvent::TaskPolled(false, task)),
        l0.stepped(l1, LoopEvent::TaskPolled(false, task), a),
    ensures
        l0.phase() is PollingTask,
        a == LoopAction::<T>::Register(l0.phase()->PollingTask_0),
        l1.phase() == Phase::RegisteringTask(l0.phase()->PollingTask_0),
        l1.table().parked().contains_key(l0.phase()->PollingTask_0),
        l1.table().parked()[l0.phase()->PollingTask_0] == task,
        l1.pending() == l0.pending(),
        l1.table().ready() == l0.table().ready(),
{
    let t = l0.phase()->PollingTask_0;
    assert(l0.table().in_poll().contains(t));
}

/// Registering a not-ready task's interest changes no task, and the round
/// goes on: while tasks of the round are left, the next action polls one of
/// them (the last left, with its token) and only it leaves the round; the
/// loop turns to adopting spawned tasks only once none is left.
pub proof fn law_round_goes_on_after_registration<T>(l0: RunLoop<T>, l1: RunLoop<T>, a: LoopAction<T>)
    requires
        l0.wf(),
        l0.phase() is RegisteringTask,
        l0.stepped(l1, LoopEvent::Registered, a),
    ensures
        l1.table().ready() == l0.table().ready(),
        l1.table().parked() == l0.table().parked(),
        l1.table().in_poll() == l0.table().in_poll(),
        l0.pending().len() > 0 ==> {
            &&& a == LoopAction::PollTask(l0.pending().last().0, l0.pending().last().1)
            &&& l0.pending().contains((l0.pending().last().0, l0.pending().last().1))
            &&& l1.pending() == l0.pending().drop_last()
            &&& l1.phase() == Phase::PollingTask(l0.pending().last().0)
        },
        l0.pending().len() == 0 ==> a is AdoptSpawned,
{
    if l0.pending().len() > 0 {
        assert(l0.pending()[l0.pending().len() - 1] == l0.pending().last());
    }
}

/// No step loses a task: every token the table knows before a step it still
/// knows after it, except the token of a task whose poll has just come back
/// finished; and the loop asks to adopt spawned tasks only when every task
/// handed out in the round has come back.
pub proof fn law_no_task_lost<T>(l0: RunLoop<T>, l1: RunLoop<T>, ev: LoopEvent<T>, a: LoopAction<T>)
    requires
        l0.wf(),
        l1.wf(),
        l0.expects(ev),
        l0.stepped(l1, ev, a),
    ensures
        forall|k: usize|
            #[trigger] l0.table().known().contains(k) && !(ev matches LoopEvent::TaskPolled(done, _)
                && done && l0.phase() == Phase::PollingTask(k)) ==> l1.table().known().contains(k),
        a is AdoptSpawned ==> l1.pending().len() == 0 && forall|k: usize|
            !#[trigger] l1.table().in_poll().contains(k),
{
    let s0 = l0.table();
    let s1 = l1.table();
    match ev {
        LoopEvent::Woken(ts) => {
            lemma_after_wakes(s0.ready(), s0.parked(), ts@, 2usize);
        },
        _ => {},
    }
    if a is AdoptSpawned {
        assert forall|k: usize| !#[trigger] l1.table().in_poll().contains(k) by {
            assert(l1.table().in_poll().contains(k) <==> (l1.pending_has(k) || l1.phase()
                == Phase::PollingTask(k)));
        }
    }
}

} // verus!
