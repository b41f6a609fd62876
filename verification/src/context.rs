//! What a task leaves for the run loop while it is being polled: tasks it
//! spawned, and the readiness interest it wants registered for its token.

use crate::scheduler::MAIN_TASK;
use vstd::prelude::*;

verus! {

/// A set of readiness kinds: readable, writable, or both.
#[derive(PartialEq, Eq, Structural, Debug, Clone, Copy)]
pub struct Ready {
    pub readable: bool,
    pub writable: bool,
}

impl Ready {
    /// Readiness for reading only.
    pub fn readable() -> (r: Ready)
        ensures
            r == (Ready { readable: true, writable: false }),
    {
        Ready { readable: true, writable: false }
    }

    /// Readiness for writing only.
    pub fn writable() -> (r: Ready)
        ensures
            r == (Ready { readable: false, writable: true }),
    {
        Ready { readable: false, writable: true }
    }

    /// The union of two readiness sets.
    pub fn union(self, other: Ready) -> (r: Ready)
        ensures
            r.readable == (self.readable || other.readable),
            r.writable == (self.writable || other.writable),
    {
        Ready { readable: self.readable || other.readable, writable: self.writable || other.writable }
    }

    /// Whether reading is part of the set.
    pub fn is_readable(&self) -> (b: bool)
        ensures
            b == self.readable,
    {
        self.readable
    }

    /// Whether writing is part of the set.
    pub fn is_writable(&self) -> (b: bool)
        ensures
            b == self.writable,
    {
        self.writable
    }
}

/// The per-thread state that tasks talk to while they are polled: the queue
/// of tasks spawned since the run loop last looked, the interest most
/// recently registered, and the token of the task being polled.
pub struct Context<T> {
    new_tasks: Vec<T>,
    new_async_interests: Option<(i32, Ready)>,
    current_token: usize,
}

impl<T> Context<T> {
    /// Tasks spawned and not yet taken by the run loop, oldest first.
    pub closed spec fn spawned(&self) -> Seq<T> {
        self.new_tasks@
    }

    /// The interest most recently registered: a descriptor and the readiness
    /// wanted for it.
    pub closed spec fn interest(&self) -> Option<(i32, Ready)> {
        self.new_async_interests
    }

    /// The token of the task being polled.
    pub closed spec fn token(&self) -> usize {
        self.current_token
    }

    /// A fresh context: nothing spawned, nothing registered, the main future
    /// being polled.
    pub fn new() -> (c: Self)
        ensures
            c.spawned() == Seq::<T>::empty(),
            c.interest() == None::<(i32, Ready)>,
            c.token() == MAIN_TASK,
    {
        Context { new_tasks: Vec::new(), new_async_interests: None, current_token: MAIN_TASK }
    }

    /// Queues a task; the run loop gives it a token and polls it.
    pub fn spawn(&mut self, task: T)
        ensures
            final(self).spawned() == old(self).spawned().push(task),
            final(self).interest() == old(self).interest(),
            final(self).token() == old(self).token(),
    {
        self.new_tasks.push(task);
    }

    /// Asks for the current task to be woken when `fd` is readable.
    pub fn register_read(&mut self, fd: i32)
        ensures
            final(self).interest() == Some((fd, Ready { readable: true, writable: false })),
            final(self).spawned() == old(self).spawned(),
            final(self).token() == old(self).token(),
    {
        self.new_async_interests = Some((fd, Ready::readable()));
    }

    /// Asks for the current task to be woken when `fd` is writable.
    pub fn register_write(&mut self, fd: i32)
        ensures
            final(self).interest() == Some((fd, Ready { readable: false, writable: true })),
            final(self).spawned() == old(self).spawned(),
            final(self).token() == old(self).token(),
    {
        self.new_async_interests = Some((fd, Ready::writable()));
    }

    /// Asks for the current task to be woken when `fd` is readable or
    /// writable.
    pub fn register_all(&mut self, fd: i32)
        ensures
            final(self).interest() == Some((fd, Ready { readable: true, writable: true })),
            final(self).spawned() == old(self).spawned(),
            final(self).token() == old(self).token(),
    {
        self.new_async_interests = Some((fd, Ready::readable().union(Ready::writable())));
    }

    /// The interest most recently registered. Reading it leaves it in place:
    /// it stays recorded until a later registration replaces it, so the run
    /// loop registers it again for whichever task it polls next.
    pub fn pending_interest(&self) -> (r: Option<(i32, Ready)>)
        ensures
            r == self.interest(),
    {
        self.new_async_interests
    }

    /// Records which task is being polled.
    pub fn set_current_token(&mut self, tok: usize)
        ensures
            final(self).token() == tok,
            final(self).spawned() == old(self).spawned(),
            final(self).interest() == old(self).interest(),
    {
        self.current_token = tok;
    }

    /// The token of the task being polled.
    pub fn current_token(&self) -> (tok: usize)
        ensures
            tok == self.token(),
    {
        self.current_token
    }

    /// Hands the queued tasks over to the run loop, oldest first, and empties
    /// the queue.
    pub fn take_new_tasks(&mut self) -> (tasks: Vec<T>)
        ensures
            tasks@ == old(self).spawned(),
            final(self).spawned() == Seq::<T>::empty(),
            final(self).interest() == old(self).interest(),
            final(self).token() == old(self).token(),
    {
        let mut tasks: Vec<T> = Vec::new();
        std::mem::swap(&mut tasks, &mut self.new_tasks);
        tasks
    }
}

} // verus!
