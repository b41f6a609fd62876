//! The bookkeeping of the run loop: which tasks are ready to be polled, which
//! wait for a readiness event, which are being polled right now, and which
//! token the next spawned task receives.

use std::collections::HashMap;
use std::collections::HashSet;
use vstd::prelude::*;

verus! {

broadcast use vstd::std_specs::hash::group_hash_axioms;

/// The token under which the main future registers its interests. Spawned
/// tasks never receive it.
pub const MAIN_TASK: usize = 1;

/// How long the run loop may block while waiting for readiness events.
pub const BUSY_POLL_MS: u64 = 1;

/// What a readiness event for a token did to the scheduler.
#[derive(PartialEq, Eq, Structural, Debug, Clone, Copy)]
pub enum Wake {
    /// The token belongs to the main future, which is to be polled again.
    Main,
    /// A parked task with this token is ready to be polled again.
    Resumed,
    /// No parked task has this token; nothing changed.
    Ignored,
}

/// One operation on the task table, with what it was given and what it
/// answered: entering a task, entering a batch of spawned tasks, handing out
/// a polling round, taking a polled task back, and a readiness event.
pub enum TableOp<T> {
    Add(T, usize),
    AddBatch(Seq<T>, Seq<usize>),
    TakeRound(Seq<(usize, T)>),
    Settle(usize, T, bool, Result<(), T>),
    WakeUp(usize, Wake),
}

/// The task table of the run loop.
pub struct Scheduler<T> {
    tasks: HashMap<usize, T>,
    awaiting: HashMap<usize, T>,
    polling: HashSet<usize>,
    last_task_id: usize,
}

impl<T> Scheduler<T> {
    /// Tasks that are to be polled in the next round, by token.
    pub closed spec fn ready(&self) -> Map<usize, T> {
        self.tasks@
    }

    /// Tasks that wait for a readiness event on their token.
    pub closed spec fn parked(&self) -> Map<usize, T> {
        self.awaiting@
    }

    /// Tokens of the tasks that were handed out for polling and not yet
    /// given back.
    pub closed spec fn in_poll(&self) -> Set<usize> {
        self.polling@
    }

    /// The last token handed out.
    pub closed spec fn last_token(&self) -> nat {
        self.last_task_id as nat
    }

    /// Every token the scheduler knows about.
    pub open spec fn known(&self) -> Set<usize> {
        self.ready().dom() + self.parked().dom() + self.in_poll()
    }

    /// The table's invariant: a task sits in exactly one place, and its token
    /// lies strictly between the main token and the next token to hand out.
    pub open spec fn wf(&self) -> bool {
        &&& self.last_token() >= MAIN_TASK
        &&& self.ready().dom().finite()
        &&& self.parked().dom().finite()
        &&& self.ready().dom().disjoint(self.parked().dom())
        &&& self.ready().dom().disjoint(self.in_poll())
        &&& self.parked().dom().disjoint(self.in_poll())
        &&& forall|k: usize| #[trigger] self.ready().contains_key(k) ==> MAIN_TASK < k <= self.last_token()
        &&& forall|k: usize| #[trigger] self.parked().contains_key(k) ==> MAIN_TASK < k <= self.last_token()
        &&& forall|k: usize| #[trigger] self.in_poll().contains(k) ==> MAIN_TASK < k <= self.last_token()
    }

    /// `post` is `self` with `task` entered as ready under the fresh token
    /// `tok`, one more than the last token handed out.
    pub open spec fn added(self, post: Self, task: T, tok: usize) -> bool {
        &&& tok == self.last_token() + 1
        &&& post.last_token() == tok
        &&& post.ready() == self.ready().insert(tok, task)
        &&& post.parked() == self.parked()
        &&& post.in_poll() == self.in_poll()
    }

    /// `post` is `self` with `tasks` entered as ready in order, the i-th
    /// under the i-th fresh token `toks[i]`.
    pub open spec fn batch_added(self, post: Self, tasks: Seq<T>, toks: Seq<usize>) -> bool {
        &&& post.last_token() == self.last_token() + tasks.len()
        &&& post.parked() == self.parked()
        &&& post.in_poll() == self.in_poll()
        &&& toks.len() == tasks.len()
        &&& forall|i: int| 0 <= i < toks.len() ==> #[trigger] toks[i] == self.last_token() + 1 + i
        &&& forall|i: int| 0 <= i < tasks.len() ==> #[trigger] post.ready()[toks[i]] == tasks[i]
        &&& forall|k: usize|
            #[trigger] post.ready().contains_key(k) <==> (self.ready().contains_key(k)
                || self.last_token() < k <= post.last_token())
        &&& forall|k: usize|
            #[trigger] self.ready().contains_key(k) ==> post.ready()[k] == self.ready()[k]
    }

    /// `post` is `self` after every ready task was handed out in `round`,
    /// each with its token, exactly once.
    pub open spec fn round_taken(self, post: Self, round: Seq<(usize, T)>) -> bool {
        &&& post.ready() == Map::<usize, T>::empty()
        &&& post.parked() == self.parked()
        &&& post.in_poll() == self.in_poll() + self.ready().dom()
        &&& post.last_token() == self.last_token()
        &&& round.len() == self.ready().len()
        &&& forall|i: int|
            #![trigger round[i]]
            0 <= i < round.len() ==> self.ready().contains_key(round[i].0) && self.ready()[round[i].0]
                == round[i].1
        &&& forall|k: usize|
            #[trigger] self.ready().contains_key(k) ==> exists|i: int|
                0 <= i < round.len() && #[trigger] round[i].0 == k
        &&& forall|i: int, j: int|
            0 <= i < round.len() && 0 <= j < round.len() && i != j ==> round[i].0 != round[j].0
    }

    /// `post` is `self` after `task` came back from polling under `tok`:
    /// a finished task is dropped, an unfinished one is parked under its
    /// token; a token that is not being polled changes nothing and the task
    /// is handed back.
    pub open spec fn settled(self, post: Self, tok: usize, task: T, finished: bool, r: Result<(), T>) -> bool {
        &&& post.last_token() == self.last_token()
        &&& post.ready() == self.ready()
        &&& if self.in_poll().contains(tok) {
            &&& r is Ok
            &&& post.in_poll() == self.in_poll().remove(tok)
            &&& post.parked() == if finished {
                self.parked()
            } else {
                self.parked().insert(tok, task)
            }
        } else {
            &&& r == Err::<(), T>(task)
            &&& post.in_poll() == self.in_poll()
            &&& post.parked() == self.parked()
        }
    }

    /// `post` is `self` after a readiness event for `tok`, answered with
    /// `w`: a parked task under `tok` becomes ready, nothing else changes.
    pub open spec fn woken(self, post: Self, tok: usize, w: Wake) -> bool {
        &&& post.last_token() == self.last_token()
        &&& post.in_poll() == self.in_poll()
        &&& w == (if tok == MAIN_TASK {
            Wake::Main
        } else if self.parked().contains_key(tok) {
            Wake::Resumed
        } else {
            Wake::Ignored
        })
        &&& w == Wake::Resumed ==> {
            &&& post.ready() == self.ready().insert(tok, self.parked()[tok])
            &&& post.parked() == self.parked().remove(tok)
        }
        &&& w != Wake::Resumed ==> {
            &&& post.ready() == self.ready()
            &&& post.parked() == self.parked()
        }
    }

    /// `post` is `self` after the operation `op`, as the operation's own
    /// contract describes it.
    pub open spec fn performs(self, post: Self, op: TableOp<T>) -> bool {
        match op {
            TableOp::Add(task, tok) => self.added(post, task, tok),
            TableOp::AddBatch(tasks, toks) => self.batch_added(post, tasks, toks),
            TableOp::TakeRound(round) => self.round_taken(post, round),
            TableOp::Settle(tok, task, finished, r) => self.settled(post, tok, task, finished, r),
            TableOp::WakeUp(tok, w) => self.woken(post, tok, w),
        }
    }

    /// An empty table; the first spawned task will get the token after the
    /// main one.
    pub fn new() -> (s: Self)
        ensures
            s.wf(),
            s.ready() == Map::<usize, T>::empty(),
            s.parked() == Map::<usize, T>::empty(),
            s.in_poll() == Set::<usize>::empty(),
            s.last_token() == MAIN_TASK,
    {
        Scheduler {
            tasks: HashMap::new(),
            awaiting: HashMap::new(),
            polling: HashSet::new(),
            last_task_id: MAIN_TASK,
        }
    }

    /// The last token handed out.
    pub fn last_token_issued(&self) -> (t: usize)
        ensures
            t == self.last_token(),
    {
        self.last_task_id
    }

    /// Hands out a fresh token: one more than the last one.
    pub fn next_tok(&mut self) -> (tok: usize)
        requires
            old(self).wf(),
            old(self).last_token() < usize::MAX,
        ensures
            final(self).wf(),
            tok == old(self).last_token() + 1,
            final(self).last_token() == tok,
            final(self).ready() == old(self).ready(),
            final(self).parked() == old(self).parked(),
            final(self).in_poll() == old(self).in_poll(),
    {
        self.last_task_id = self.last_task_id + 1;
        self.last_task_id
    }

    /// Enters a newly spawned task under a fresh token; it is ready to be
    /// polled in the next round.
    pub fn add_task(&mut self, task: T) -> (tok: usize)
        requires
            old(self).wf(),
            old(self).last_token() < usize::MAX,
        ensures
            final(self).wf(),
            old(self).added(*final(self), task, tok),
            !old(self).known().contains(tok),
    {
        let tok: usize = self.next_tok();
        self.tasks.insert(tok, task);
        tok
    }

    /// Enters the tasks spawned since the last round, in the order they were
    /// spawned; the i-th receives the i-th fresh token.
    pub fn add_tasks(&mut self, tasks: Vec<T>) -> (toks: Vec<usize>)
        requires
            old(self).wf(),
            old(self).last_token() + tasks@.len() <= usize::MAX,
        ensures
            final(self).wf(),
            old(self).batch_added(*final(self), tasks@, toks@),
    {
        let ghost all = tasks@;
        let ghost first = self.last_task_id as nat;
        let mut rest = tasks;
        let mut toks: Vec<usize> = Vec::new();
        while rest.len() > 0
            invariant
                self.wf(),
                toks@.len() + rest@.len() == all.len(),
                rest@ == all.skip(toks@.len() as int),
                self.last_task_id == first + toks@.len(),
                first + all.len() <= usize::MAX,
                self.awaiting@ == old(self).awaiting@,
                self.polling@ == old(self).polling@,
                forall|i: int| 0 <= i < toks@.len() ==> #[trigger] toks@[i] == first + 1 + i,
                forall|i: int| 0 <= i < toks@.len() ==> #[trigger] self.tasks@[toks@[i]] == all[i],
                forall|k: usize|
                    #[trigger] self.tasks@.contains_key(k) <==> (old(self).tasks@.contains_key(k)
                        || first < k <= self.last_task_id),
                forall|k: usize|
                    #[trigger] old(self).tasks@.contains_key(k) ==> self.tasks@[k] == old(
                        self,
                    ).tasks@[k],
            decreases rest@.len(),
        {
            let task = rest.remove(0);
            let tok: usize = self.add_task(task);
            toks.push(tok);
            proof {
                assert(rest@ =~= all.skip(toks@.len() as int));
            }
        }
        toks
    }

    /// How long the run loop may wait for events: without ready tasks it
    /// blocks until one arrives, otherwise it only takes a short look.
    pub fn poll_timeout_ms(&self) -> (t: Option<u64>)
        ensures
            t == (if self.ready().is_empty() { None } else { Some(BUSY_POLL_MS) }),
    {
        if self.tasks.len() == 0 {
            proof {
                assert(self.ready().dom().finite());
                if !self.ready().is_empty() {
                    let k: usize = self.ready().dom().choose();
                    assert(self.ready().dom().contains(k));
                    assert(self.ready().dom().len() > 0);
                }
            }
            None
        } else {
            Some(BUSY_POLL_MS)
        }
    }

    /// Starts a polling round: every ready task is handed out, each with its
    /// token, and counts as being polled until it is given back.
    pub fn take_ready(&mut self) -> (round: Vec<(usize, T)>)
        requires
            old(self).wf(),
        ensures
            final(self).wf(),
            old(self).round_taken(*final(self), round@),
    {
        let ghost old_ready = self.tasks@;
        let mut keys: Vec<usize> = Vec::new();
        for k in it: self.tasks.keys()
            invariant
                it.seq().unref().to_set() == old_ready.dom(),
                it.seq().no_duplicates(),
                keys@ == it.seq().take(it.index()).unref(),
                it.index() == it.seq().len() ==> {
                    &&& keys@.to_set() == old_ready.dom()
                    &&& keys@.no_duplicates()
                },
        {
            proof {
                assert(k == it.seq()[it.index()]);
            }
            keys.push(*k);
            proof {
                assert(it.seq().take(it.index() + 1).unref() =~= keys@);
                assert(it.seq().take(it.seq().len() as int) =~= it.seq());
            }
        }
        let mut round: Vec<(usize, T)> = Vec::new();
        let n: usize = keys.len();
        for i in 0..n
            invariant
                n == keys@.len(),
                keys@.to_set() == old_ready.dom(),
                keys@.no_duplicates(),
                round@.len() == i,
                forall|j: int| 0 <= j < i ==> #[trigger] round@[j].0 == keys@[j],
                forall|j: int| 0 <= j < i ==> old_ready[keys@[j]] == #[trigger] round@[j].1,
                self.tasks@ == old_ready.remove_keys(keys@.take(i as int).to_set()),
                self.polling@ == old(self).polling@ + keys@.take(i as int).to_set(),
                self.awaiting@ == old(self).awaiting@,
                self.last_task_id == old(self).last_task_id,
        {
            let k: usize = keys[i];
            proof {
                assert(keys@.take(i + 1) =~= keys@.take(i as int).push(k));
                keys@.take(i as int).lemma_push_to_set_commute(k);
                assert(keys@.to_set().contains(k));
                assert(!keys@.take(i as int).to_set().contains(k)) by {
                    if keys@.take(i as int).to_set().contains(k) {
                        let j: int = choose|j: int| 0 <= j < i && keys@.take(i as int)[j] == k;
                        assert(keys@[j] == keys@[i as int]);
                    }
                }
            }
            let task = self.tasks.remove(&k).unwrap();
            self.polling.insert(k);
            round.push((k, task));
            proof {
                assert(self.tasks@ =~= old_ready.remove_keys(keys@.take(i + 1).to_set()));
                assert(self.polling@ =~= old(self).polling@ + keys@.take(i + 1).to_set());
            }
        }
        proof {
            assert(keys@.take(n as int) =~= keys@);
            assert(self.tasks@ =~= Map::<usize, T>::empty());
            assert forall|k: usize| #[trigger] old_ready.contains_key(k) implies exists|i: int|
                0 <= i < round@.len() && #[trigger] round@[i].0 == k by {
                assert(keys@.to_set().contains(k));
                let j: int = choose|j: int| 0 <= j < keys@.len() && keys@[j] == k;
                assert(round@[j].0 == k);
            }
        }
        round
    }

    /// Gives back a task that was handed out for polling, with the answer of
    /// its poll. A finished task is dropped; one that is not ready waits for
    /// an event on its token. A token that is not being polled is refused
    /// and the task handed back untouched.
    pub fn settle(&mut self, tok: usize, task: T, finished: bool) -> (r: Result<(), T>)
        requires
            old(self).wf(),
        ensures
            final(self).wf(),
            old(self).settled(*final(self), tok, task, finished, r),
    {
        if !self.polling.contains(&tok) {
            return Err(task);
        }
        self.polling.remove(&tok);
        if !finished {
            self.awaiting.insert(tok, task);
        }
        Ok(())
    }

    /// Reacts to a readiness event for `tok`: the main token asks for the
    /// main future to be polled again, a parked task becomes ready again,
    /// any other token is ignored.
    pub fn wake(&mut self, tok: usize) -> (w: Wake)
        requires
            old(self).wf(),
        ensures
            final(self).wf(),
            old(self).woken(*final(self), tok, w),
    {
        if tok == MAIN_TASK {
            return Wake::Main;
        }
        match self.awaiting.remove(&tok) {
            Some(task) => {
                self.tasks.insert(tok, task);
                Wake::Resumed
            },
            None => {
                assert(self.awaiting@ =~= old(self).awaiting@);
                Wake::Ignored
            },
        }
    }
}

/// The tokens of the first `n` tasks of a polling round.
pub open spec fn round_tokens<T>(round: Seq<(usize, T)>, n: int) -> Set<usize> {
    Set::new(|k: usize| exists|j: int| 0 <= j < n && #[trigger] round[j].0 == k)
}

/// The parked tasks after the first `n` tasks of a round came back, the
/// ones marked finished dropped and the others parked under their token.
pub open spec fn parked_after<T>(
    parked: Map<usize, T>,
    round: Seq<(usize, T)>,
    finished: Seq<bool>,
    n: nat,
) -> Map<usize, T>
    decreases n,
{
    if n == 0 {
        parked
    } else {
        let prev = parked_after(parked, round, finished, (n - 1) as nat);
        if finished[n - 1] {
            prev
        } else {
            prev.insert(round[n - 1].0, round[n - 1].1)
        }
    }
}

/// A task that came back unfinished and is then woken by its token is
/// ready again, unchanged, and no longer parked.
pub proof fn law_parked_task_resumes_unchanged<T>(
    s0: Scheduler<T>,
    s1: Scheduler<T>,
    s2: Scheduler<T>,
    tok: usize,
    task: T,
    r: Result<(), T>,
    w: Wake,
)
    requires
        s0.wf(),
        s0.in_poll().contains(tok),
        s0.settled(s1, tok, task, false, r),
        s1.woken(s2, tok, w),
    ensures
        r is Ok,
        w == Wake::Resumed,
        s2.ready().contains_key(tok),
        s2.ready()[tok] == task,
        !s2.parked().contains_key(tok),
        !s2.in_poll().contains(tok),
{
}

/// A task that came back finished is forgotten: its token is nowhere in the
/// table, and a later event for that token changes nothing.
pub proof fn law_finished_task_is_forgotten<T>(
    s0: Scheduler<T>,
    s1: Scheduler<T>,
    s2: Scheduler<T>,
    tok: usize,
    task: T,
    r: Result<(), T>,
    w: Wake,
)
    requires
        s0.wf(),
        s0.in_poll().contains(tok),
        s0.settled(s1, tok, task, true, r),
        s1.woken(s2, tok, w),
    ensures
        r is Ok,
        !s1.known().contains(tok),
        w == Wake::Ignored,
        s2.ready() == s1.ready(),
        s2.parked() == s1.parked(),
        s2.in_poll() == s1.in_poll(),
{
}

/// Tokens are never handed out twice: two tasks entered one after the other
/// get different tokens, both above the main token and new to the table.
pub proof fn law_tokens_never_repeat<T>(
    s0: Scheduler<T>,
    s1: Scheduler<T>,
    s2: Scheduler<T>,
    t1: T,
    t2: T,
    k1: usize,
    k2: usize,
)
    requires
        s0.wf(),
        s1.wf(),
        s0.added(s1, t1, k1),
        s1.added(s2, t2, k2),
    ensures
        MAIN_TASK < k1 < k2,
        !s0.known().contains(k1),
        !s1.known().contains(k2),
        s2.ready()[k1] == t1,
        s2.ready()[k2] == t2,
{
}

/// Tasks entered together are ready under tokens that grow in the order the
/// tasks were spawned, none of them known to the table before.
pub proof fn law_spawn_order_is_token_order<T>(
    s0: Scheduler<T>,
    s1: Scheduler<T>,
    tasks: Seq<T>,
    toks: Seq<usize>,
)
    requires
        s0.wf(),
        s0.batch_added(s1, tasks, toks),
    ensures
        forall|i: int, j: int| 0 <= i < j < toks.len() ==> #[trigger] toks[i] < #[trigger] toks[j],
        forall|i: int|
            0 <= i < toks.len() ==> !s0.known().contains(#[trigger] toks[i]) && MAIN_TASK
                < toks[i] && s1.ready()[toks[i]] == tasks[i],
{
    assert forall|i: int| 0 <= i < toks.len() implies !s0.known().contains(#[trigger] toks[i])
        && MAIN_TASK < toks[i] && s1.ready()[toks[i]] == tasks[i] by {
        if s0.ready().contains_key(toks[i]) {
        }
        if s0.parked().contains_key(toks[i]) {
        }
        if s0.in_poll().contains(toks[i]) {
        }
    }
}

/// Tasks entered since the last round are all handed out, unchanged, by
/// the next one, each under its own token.
pub proof fn law_spawned_tasks_polled_next_round<T>(
    s0: Scheduler<T>,
    s1: Scheduler<T>,
    s2: Scheduler<T>,
    tasks: Seq<T>,
    toks: Seq<usize>,
    round: Seq<(usize, T)>,
)
    requires
        s0.wf(),
        s0.batch_added(s1, tasks, toks),
        s1.round_taken(s2, round),
    ensures
        forall|i: int| 0 <= i < tasks.len() ==> round.contains((#[trigger] toks[i], tasks[i])),
{
    assert forall|i: int| 0 <= i < tasks.len() implies round.contains((#[trigger] toks[i], tasks[i])) by {
        let k: usize = toks[i];
        assert(s1.ready().contains_key(k));
        let j: int = choose|j: int| 0 <= j < round.len() && #[trigger] round[j].0 == k;
        assert(round[j] == (toks[i], tasks[i]));
    }
}

proof fn lemma_forgotten_stays_forgotten<T>(s0: Scheduler<T>, s1: Scheduler<T>, op: TableOp<T>, tok: usize)
    requires
        s0.wf(),
        s1.wf(),
        s0.performs(s1, op),
        !s0.known().contains(tok),
        tok <= s0.last_token(),
    ensures
        !s1.known().contains(tok),
        tok <= s1.last_token(),
        op matches TableOp::TakeRound(round) ==> forall|m: int|
            0 <= m < round.len() ==> (#[trigger] round[m]).0 != tok,
{
    match op {
        TableOp::Add(task, k) => {},
        TableOp::AddBatch(tasks, toks) => {
            assert(!s1.ready().contains_key(tok));
        },
        TableOp::TakeRound(round) => {
            assert forall|m: int| 0 <= m < round.len() implies (#[trigger] round[m]).0 != tok by {}
        },
        TableOp::Settle(k, task, finished, r) => {},
        TableOp::WakeUp(k, w) => {},
    }
}

/// A task that came back finished is never polled again: from then on its
/// token is nowhere in the table, and no later polling round hands it out.
pub proof fn law_finished_task_never_polled_again<T>(
    states: Seq<Scheduler<T>>,
    ops: Seq<TableOp<T>>,
    i: int,
    tok: usize,
)
    requires
        states.len() == ops.len() + 1,
        forall|j: int| 0 <= j < states.len() ==> (#[trigger] states[j]).wf(),
        forall|j: int| 0 <= j < ops.len() ==> #[trigger] states[j].performs(states[j + 1], ops[j]),
        0 <= i < ops.len(),
        ops[i] matches TableOp::Settle(t, _, f, _) && t == tok && f,
        states[i].in_poll().contains(tok),
    ensures
        forall|j: int| i < j < states.len() ==> !(#[trigger] states[j]).known().contains(tok),
        forall|j: int|
            i < j < ops.len() ==> ((#[trigger] ops[j]) matches TableOp::TakeRound(round) ==> forall|
                m: int,
            |
                0 <= m < round.len() ==> (#[trigger] round[m]).0 != tok),
{
    assert(states[i].performs(states[i + 1], ops[i]));
    assert forall|j: int| i < j < states.len() implies !(#[trigger] states[j]).known().contains(tok)
        && tok <= states[j].last_token() by {
        lemma_forgotten_from(states, ops, i, tok, j);
    }
    assert forall|j: int|
        i < j < ops.len() implies ((#[trigger] ops[j]) matches TableOp::TakeRound(round) ==> forall|
            m: int,
        |
            0 <= m < round.len() ==> (#[trigger] round[m]).0 != tok) by {
        lemma_forgotten_from(states, ops, i, tok, j);
        assert(states[j].performs(states[j + 1], ops[j]));
        lemma_forgotten_stays_forgotten(states[j], states[j + 1], ops[j], tok);
    }
}

proof fn lemma_forgotten_from<T>(
    states: Seq<Scheduler<T>>,
    ops: Seq<TableOp<T>>,
    i: int,
    tok: usize,
    j: int,
)
    requires
        states.len() == ops.len() + 1,
        forall|k: int| 0 <= k < states.len() ==> (#[trigger] states[k]).wf(),
        forall|k: int| 0 <= k < ops.len() ==> #[trigger] states[k].performs(states[k + 1], ops[k]),
        0 <= i < ops.len(),
        ops[i] matches TableOp::Settle(t, _, f, _) && t == tok && f,
        states[i].in_poll().contains(tok),
        i < j < states.len(),
    ensures
        !states[j].known().contains(tok),
        tok <= states[j].last_token(),
    decreases j - i,
{
    if j == i + 1 {
        assert(states[i].performs(states[i + 1], ops[i]));
        assert(states[i].wf());
    } else {
        lemma_forgotten_from(states, ops, i, tok, j - 1);
        let p: int = j - 1;
        assert(states[p].performs(states[p + 1], ops[p]));
        assert(p + 1 == j);
        lemma_forgotten_stays_forgotten(states[j - 1], states[j], ops[j - 1], tok);
    }
}

proof fn lemma_parked_stays_parked<T>(s0: Scheduler<T>, s1: Scheduler<T>, op: TableOp<T>, tok: usize)
    requires
        s0.wf(),
        s1.wf(),
        s0.performs(s1, op),
        s0.parked().contains_key(tok),
        !(op matches TableOp::WakeUp(t, _) && t == tok),
    ensures
        s1.parked().contains_key(tok),
        s1.parked()[tok] == s0.parked()[tok],
        op matches TableOp::TakeRound(round) ==> forall|m: int|
            0 <= m < round.len() ==> (#[trigger] round[m]).0 != tok,
{
    match op {
        TableOp::Add(task, k) => {},
        TableOp::AddBatch(tasks, toks) => {},
        TableOp::TakeRound(round) => {
            assert forall|m: int| 0 <= m < round.len() implies (#[trigger] round[m]).0 != tok by {}
        },
        TableOp::Settle(k, task, finished, r) => {
            if s0.in_poll().contains(k) {
                assert(k != tok);
            }
        },
        TableOp::WakeUp(k, w) => {},
    }
}

proof fn lemma_parked_from<T>(
    states: Seq<Scheduler<T>>,
    ops: Seq<TableOp<T>>,
    i: int,
    k: int,
    tok: usize,
    j: int,
)
    requires
        states.len() == ops.len() + 1,
        forall|m: int| 0 <= m < states.len() ==> (#[trigger] states[m]).wf(),
        forall|m: int| 0 <= m < ops.len() ==> #[trigger] states[m].performs(states[m + 1], ops[m]),
        0 <= i <= k < states.len(),
        states[i].parked().contains_key(tok),
        forall|m: int| i <= m < k ==> !((#[trigger] ops[m]) matches TableOp::WakeUp(t, _) && t == tok),
        i <= j <= k,
    ensures
        states[j].parked().contains_key(tok),
        states[j].parked()[tok] == states[i].parked()[tok],
    decreases j - i,
{
    if j > i {
        lemma_parked_from(states, ops, i, k, tok, j - 1);
        let p: int = j - 1;
        assert(states[p].performs(states[p + 1], ops[p]));
        assert(p + 1 == j);
        assert(!(ops[j - 1] matches TableOp::WakeUp(t, _) && t == tok));
        lemma_parked_stays_parked(states[j - 1], states[j], ops[j - 1], tok);
    }
}

/// A parked task is polled only after an event for its token: until such an
/// event it stays parked, unchanged, is neither ready nor being polled, and
/// no polling round hands it out.
pub proof fn law_parked_task_polled_only_after_its_event<T>(
    states: Seq<Scheduler<T>>,
    ops: Seq<TableOp<T>>,
    i: int,
    k: int,
    tok: usize,
)
    requires
        states.len() == ops.len() + 1,
        forall|j: int| 0 <= j < states.len() ==> (#[trigger] states[j]).wf(),
        forall|j: int| 0 <= j < ops.len() ==> #[trigger] states[j].performs(states[j + 1], ops[j]),
        0 <= i <= k < states.len(),
        states[i].parked().contains_key(tok),
        forall|j: int| i <= j < k ==> !((#[trigger] ops[j]) matches TableOp::WakeUp(t, _) && t == tok),
    ensures
        forall|j: int|
            i <= j <= k ==> (#[trigger] states[j]).parked().contains_key(tok) && states[j].parked()[tok]
                == states[i].parked()[tok] && !states[j].ready().contains_key(tok)
                && !states[j].in_poll().contains(tok),
        forall|j: int|
            i <= j < k ==> ((#[trigger] ops[j]) matches TableOp::TakeRound(round) ==> forall|m: int|
                0 <= m < round.len() ==> (#[trigger] round[m]).0 != tok),
{
    assert forall|j: int| i <= j <= k implies (#[trigger] states[j]).parked().contains_key(tok)
        && states[j].parked()[tok] == states[i].parked()[tok] && !states[j].ready().contains_key(tok)
        && !states[j].in_poll().contains(tok) by {
        lemma_parked_from(states, ops, i, k, tok, j);
    }
    assert forall|j: int|
        i <= j < k implies ((#[trigger] ops[j]) matches TableOp::TakeRound(round) ==> forall|m: int|
            0 <= m < round.len() ==> (#[trigger] round[m]).0 != tok) by {
        lemma_parked_from(states, ops, i, k, tok, j);
        assert(states[j].performs(states[j + 1], ops[j]));
        lemma_parked_stays_parked(states[j], states[j + 1], ops[j], tok);
    }
}

proof fn lemma_round_prefix<T>(
    s0: Scheduler<T>,
    round: Seq<(usize, T)>,
    states: Seq<Scheduler<T>>,
    finished: Seq<bool>,
    results: Seq<Result<(), T>>,
    i: nat,
)
    requires
        s0.wf(),
        s0.round_taken(states[0], round),
        states.len() == round.len() + 1,
        finished.len() == round.len(),
        results.len() == round.len(),
        forall|j: int|
            0 <= j < round.len() ==> #[trigger] states[j].settled(
                states[j + 1],
                round[j].0,
                round[j].1,
                finished[j],
                results[j],
            ),
        i <= round.len(),
    ensures
        states[i as int].ready() == Map::<usize, T>::empty(),
        states[i as int].last_token() == s0.last_token(),
        states[i as int].in_poll() == (s0.in_poll() + s0.ready().dom()).difference(
            round_tokens(round, i as int),
        ),
        states[i as int].parked() == parked_after(s0.parked(), round, finished, i),
        forall|j: int| 0 <= j < i ==> (#[trigger] results[j]) is Ok,
    decreases i,
{
    if i == 0 {
        assert(round_tokens(round, 0) =~= Set::<usize>::empty());
        assert((s0.in_poll() + s0.ready().dom()).difference(Set::<usize>::empty()) =~= s0.in_poll()
            + s0.ready().dom());
    } else {
        let p: nat = (i - 1) as nat;
        lemma_round_prefix(s0, round, states, finished, results, p);
        let k: usize = round[p as int].0;
        assert(states[p as int].settled(
            states[p + 1int],
            round[p as int].0,
            round[p as int].1,
            finished[p as int],
            results[p as int],
        ));
        assert(s0.ready().contains_key(k));
        assert(!round_tokens(round, p as int).contains(k)) by {
            if round_tokens(round, p as int).contains(k) {
                let j: int = choose|j: int| 0 <= j < p && #[trigger] round[j].0 == k;
                assert(round[j].0 == round[p as int].0);
            }
        }
        assert(states[p as int].in_poll().contains(k));
        assert(states[i as int].in_poll() =~= (s0.in_poll() + s0.ready().dom()).difference(
            round_tokens(round, i as int),
        )) by {
            assert forall|x: usize| #[trigger] round_tokens(round, i as int).contains(x) <==> (
            round_tokens(round, p as int).contains(x) || x == k) by {
                if round_tokens(round, i as int).contains(x) {
                    let j: int = choose|j: int| 0 <= j < i && #[trigger] round[j].0 == x;
                    if j < p {
                        assert(round_tokens(round, p as int).contains(x));
                    }
                }
                if round_tokens(round, p as int).contains(x) {
                    let j: int = choose|j: int| 0 <= j < p && #[trigger] round[j].0 == x;
                    assert(round_tokens(round, i as int).contains(x));
                }
                if x == k {
                    assert(round[p as int].0 == x);
                }
            }
        }
    }
}

/// A polling round in which every task handed out comes back leaves no task
/// ready and none being polled beyond those before the round; each task is
/// dropped if it finished and parked under its token otherwise.
pub proof fn law_round_parks_or_drops<T>(
    s0: Scheduler<T>,
    round: Seq<(usize, T)>,
    states: Seq<Scheduler<T>>,
    finished: Seq<bool>,
    results: Seq<Result<(), T>>,
)
    requires
        s0.wf(),
        s0.round_taken(states[0], round),
        states.len() == round.len() + 1,
        finished.len() == round.len(),
        results.len() == round.len(),
        forall|j: int|
            0 <= j < round.len() ==> #[trigger] states[j].settled(
                states[j + 1],
                round[j].0,
                round[j].1,
                finished[j],
                results[j],
            ),
    ensures
        forall|j: int| 0 <= j < round.len() ==> (#[trigger] results[j]) is Ok,
        states.last().ready() == Map::<usize, T>::empty(),
        states.last().in_poll() == s0.in_poll(),
        states.last().parked() == parked_after(s0.parked(), round, finished, round.len()),
        states.last().last_token() == s0.last_token(),
{
    lemma_round_prefix(s0, round, states, finished, results, round.len());
    assert(round_tokens(round, round.len() as int) =~= s0.ready().dom()) by {
        assert forall|x: usize| #[trigger] s0.ready().dom().contains(x) implies round_tokens(
            round,
            round.len() as int,
        ).contains(x) by {
            let j: int = choose|j: int| 0 <= j < round.len() && #[trigger] round[j].0 == x;
        }
    }
    assert((s0.in_poll() + s0.ready().dom()).difference(s0.ready().dom()) =~= s0.in_poll());
}

} // verus!
