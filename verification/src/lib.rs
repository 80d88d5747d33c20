//! A bounded worker pool for one batch of independent, position-tagged jobs.
//!
//! The pool fans a batch out to a fixed set of workers over a first-in
//! first-out queue and gathers the answers back by position, so the output
//! lines up with the input whatever order the jobs finished in. Every worker
//! is stopped by exactly one termination signal and joined exactly once.
//!
//! The workers of this crate are state machines that the pool steps in turn on
//! the calling thread. A host that runs each worker on a thread of its own
//! drives the same machines: `Worker::serve` is the body of its receive loop
//! and `store` the body of its collection loop. The module `protocol` proves
//! that such a host ends with the same slots, in whatever order its workers
//! get to run.
//!
//! - `message`: the messages of the two queues
//! - `worker`: one worker and its life
//! - `pool`: the pool, with submission, collection and disposal
//! - `manager`: one batch from the inputs to the ordered outputs
//! - `laws`: what holds of every worker and every pool
//! - `protocol`: the runs of the protocol under any interleaving
pub mod laws;
pub mod manager;
pub mod message;
pub mod pool;
pub mod protocol;
pub mod worker;

pub use manager::{empty_slots, thread_manager};
pub use message::Message;
pub use pool::{pool_size, slot_collected, store, PoolView, ThreadPool, MAX_THREADS};
pub use worker::{Worker, WorkerState, WorkerView};
