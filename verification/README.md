# mirage

A small single-threaded task runtime over non-blocking sockets, with an
example program in which a server task greets a client fifty times.

- `src/` is the verified library:
  - `task`: the polling interface (`Async`, `Await`, `AsAsync`) and the
    conversion of a resumption's outcome into a poll answer;
  - `scheduler`: the task table of the run loop (ready, parked and polled
    tasks, token allocation, readiness wake-ups, poll timeout) and its laws;
  - `run_loop`: the order of the run loop as a state machine (event in,
    action out) over the task table, with its laws;
  - `context`: what tasks leave for the run loop while polled (spawned
    tasks, the registered readiness interest, the current token);
  - `reactor`: what to do when registering a descriptor fails;
  - `net`: the decisions of non-blocking operations, of connecting and of
    writing a whole buffer;
  - `simple`: the example program's tasks as state machines.
- `app/` performs the actions the run loop asks for over `mio`: it polls,
  registers descriptors, blocks for events and performs the socket
  operations the library's machines ask for.
- `tests/` exercises the library on concrete values.
