//! The messages that travel through the pool's two queues.
use vstd::prelude::*;

verus! {

/// One message of the pool's protocol.
///
/// `Work` flows from the caller to a worker, `Result` from a worker back to
/// the pool, and `Terminate` from the pool to a worker, one per worker.
/// `T` is the type of a job's answer and `J` the type of the jobs themselves:
/// single-use computations without arguments.
pub enum Message<T, J> {
    /// A job and the position of its input in the batch.
    Work { pos: usize, job: J },
    /// The answer of the job that was submitted for `pos`.
    Result { pos: usize, res: T },
    /// Tells the worker that receives it to stop.
    Terminate,
}

impl<T, J: FnOnce() -> T> Message<T, J> {
    /// A worker can act on this message: the job of a `Work` message may be
    /// called. The other messages carry nothing to call.
    pub open spec fn ready(self) -> bool {
        self matches Message::Work { job, .. } ==> job.requires(())
    }

    /// This message is a job that is ready to run.
    pub open spec fn ready_work(self) -> bool {
        self is Work && self.ready()
    }

    /// This message is a job that may return `value`.
    pub open spec fn yields(self, value: T) -> bool {
        self matches Message::Work { job, .. } && job.ensures((), value)
    }

    /// `reply` answers this `Work` message: it is a `Result` for the same
    /// position whose value the job may return.
    pub open spec fn answered_by(self, reply: Message<T, J>) -> bool {
        &&& self matches Message::Work { pos, .. }
        &&& reply matches Message::Result { pos: at, res }
        &&& at == pos
        &&& self.yields(res)
    }

    /// The position that a `Work` message was submitted for.
    pub open spec fn slot(self) -> int
        recommends
            self is Work,
    {
        self->Work_pos as int
    }
}

} // verus!
