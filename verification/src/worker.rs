//! One worker of the pool, as a state machine.
use vstd::prelude::*;
use crate::message::Message;

verus! {

/// Where a worker stands in its life.
///
/// A worker is `Running` from the moment it is made. The termination signal
/// moves it to `Draining`, in which it gives up its end of the outbound queue,
/// and from there it goes to `Stopped`. There is no way back.
#[derive(Clone, Copy, PartialEq, Eq, Debug, Structural)]
pub enum WorkerState {
    Running,
    Draining,
    Stopped,
}

/// One worker: its index in the pool, its state, and what has happened to it.
pub struct Worker {
    id: usize,
    state: WorkerState,
    worked: bool,
    joined: bool,
    stops: Ghost<nat>,
    joins: Ghost<nat>,
}

/// The mathematical value of a [`Worker`].
pub struct WorkerView {
    /// The worker's index in its pool.
    pub id: nat,
    /// Where the worker stands in its life.
    pub state: WorkerState,
    /// The worker has run at least one job.
    pub worked: bool,
    /// The worker has been joined.
    pub joined: bool,
    /// How many termination signals the worker has acted on.
    pub stops: nat,
    /// How many times the worker has been waited for.
    pub joins: nat,
}

impl WorkerView {
    /// A worker as `Worker::new` makes it.
    pub open spec fn fresh(id: nat) -> WorkerView {
        WorkerView {
            id,
            state: WorkerState::Running,
            worked: false,
            joined: false,
            stops: 0,
            joins: 0,
        }
    }

    /// The worker once it has run a job.
    pub open spec fn work(self) -> WorkerView {
        WorkerView { worked: true, ..self }
    }

    /// The worker once it has acted on a termination signal.
    pub open spec fn drain(self) -> WorkerView {
        WorkerView { state: WorkerState::Draining, stops: self.stops + 1, ..self }
    }

    /// The worker once it has given up its end of the outbound queue: stopped
    /// if it was draining, and as it was otherwise.
    pub open spec fn release(self) -> WorkerView {
        if self.state == WorkerState::Draining {
            WorkerView { state: WorkerState::Stopped, ..self }
        } else {
            self
        }
    }

    /// The worker once it has been waited for: joined, and by one wait more
    /// than before unless it was joined already.
    pub open spec fn join(self) -> WorkerView {
        if self.joined {
            self
        } else {
            WorkerView { joined: true, joins: self.joins + 1, ..self }
        }
    }

    /// The worker at the end of its service, `worked` telling whether it ran
    /// a job before the termination signal reached it: it has acted on the
    /// signal and given up its end of the outbound queue. A worker that no
    /// longer runs stays as it is.
    pub open spec fn stop(self, worked: bool) -> WorkerView {
        if self.state != WorkerState::Running {
            self
        } else if worked {
            self.work().drain().release()
        } else {
            self.drain().release()
        }
    }

    /// The history agrees with the state: the worker has acted on one
    /// termination signal if it has left `Running` and on none if it has
    /// not, it has been waited for once if it is joined and never if it is
    /// not, and it is joined only if it has stopped.
    pub open spec fn wf(self) -> bool {
        &&& self.stops == if self.state == WorkerState::Running { 0nat } else { 1nat }
        &&& self.joins == if self.joined { 1nat } else { 0nat }
        &&& self.joined ==> self.state == WorkerState::Stopped
    }
}

impl View for Worker {
    type V = WorkerView;

    closed spec fn view(&self) -> WorkerView {
        WorkerView {
            id: self.id as nat,
            state: self.state,
            worked: self.worked,
            joined: self.joined,
            stops: self.stops@,
            joins: self.joins@,
        }
    }
}

impl Worker {
    /// A running worker with the given index that has done nothing yet.
    pub fn new(id: usize) -> (worker: Worker)
        ensures
            worker@ == WorkerView::fresh(id as nat),
    {
        Worker {
            id,
            state: WorkerState::Running,
            worked: false,
            joined: false,
            stops: Ghost(0),
            joins: Ghost(0),
        }
    }

    /// Acts on one message taken from the inbound queue.
    ///
    /// A `Work` message has its job run, and the reply to publish is the
    /// job's answer under the same position; the worker keeps running. Any
    /// other message ends the service: there is nothing to publish, and the
    /// worker is left to give up its end of the outbound queue.
    ///
    /// Only a running worker receives messages, and the job of a `Work`
    /// message must be ready to run.
    pub fn serve<T, J: FnOnce() -> T>(&mut self, message: Message<T, J>) -> (reply: Option<
        Message<T, J>,
    >)
        requires
            old(self)@.state == WorkerState::Running,
            message.ready(),
        ensures
            message is Work ==> reply is Some && message.answered_by(reply->0),
            message is Work ==> final(self)@ == old(self)@.work(),
            !(message is Work) ==> reply is None,
            !(message is Work) ==> final(self)@ == old(self)@.drain(),
    {
        match message {
            Message::Work { pos, job } => {
                let res = job();
                self.worked = true;
                Some(Message::Result { pos, res })
            },
            _ => {
                self.state = WorkerState::Draining;
                self.stops = Ghost(self.stops@ + 1);
                None
            },
        }
    }

    /// Records that the worker has given up its end of the outbound queue: a
    /// draining worker is stopped from here on. In any other state nothing
    /// changes.
    pub fn release(&mut self)
        ensures
            final(self)@ == old(self)@.release(),
    {
        match self.state {
            WorkerState::Draining => {
                self.state = WorkerState::Stopped;
            },
            _ => {},
        }
    }

    /// Waits for the worker's end, once. The first call on a worker joins it
    /// and returns `true`; every later call finds it joined, does nothing and
    /// returns `false`. The worker must have stopped: a worker that still
    /// runs would be waited for without end.
    pub fn join(&mut self) -> (first: bool)
        requires
            old(self)@.state == WorkerState::Stopped,
        ensures
            first == !old(self)@.joined,
            final(self)@ == old(self)@.join(),
    {
        if self.joined {
            false
        } else {
            self.joined = true;
            self.joins = Ghost(self.joins@ + 1);
            true
        }
    }

    /// The worker's index in its pool.
    pub fn id(&self) -> (id: usize)
        ensures
            id == self@.id,
    {
        self.id
    }

    /// Where the worker stands in its life.
    pub fn state(&self) -> (state: WorkerState)
        ensures
            state == self@.state,
    {
        self.state
    }

    /// Whether the worker has run at least one job.
    pub fn has_worked(&self) -> (worked: bool)
        ensures
            worked == self@.worked,
    {
        self.worked
    }

    /// Whether the worker has been joined.
    pub fn is_joined(&self) -> (joined: bool)
        ensures
            joined == self@.joined,
    {
        self.joined
    }
}

} // verus!
