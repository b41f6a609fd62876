//! A small single-threaded task runtime: resumable computations are driven
//! by polling, and the runtime decides which tasks to poll, when to sleep and
//! how to register the readiness interests that tasks leave behind.

pub mod task;
pub mod scheduler;
pub mod context;
pub mod net;
pub mod reactor;
pub mod simple;
pub mod run_loop;
