//! The pool: a fixed set of workers between an inbound and an outbound queue.
use vstd::prelude::*;
use std::collections::VecDeque;
use crate::message::Message;
use crate::worker::{Worker, WorkerState, WorkerView};

verus! {

/// The largest number of workers that a pool is given.
pub const MAX_THREADS: usize = 5;

/// A pool of at most [`MAX_THREADS`] workers for one batch of jobs. `T` is the
/// type of the answers and `J` the type of the jobs.
///
/// Jobs are submitted with `execute`, each under the position of its input,
/// and wait in the inbound queue in the order of their submission. `result`
/// stops the pool: it appends one termination signal per worker, lets the
/// workers take turns on the queue, and writes every answer into the slot of
/// its position. `dispose` joins the workers, after stopping them if nothing
/// else has.
pub struct ThreadPool<T, J> {
    workers: Vec<Worker>,
    inbound: VecDeque<Message<T, J>>,
    outbound: VecDeque<Message<T, J>>,
}

/// The mathematical value of a [`ThreadPool`]: its workers in the order of
/// their indices and the contents of its two queues, oldest message first.
pub struct PoolView<T, J> {
    /// The workers, in the order of their indices.
    pub workers: Seq<WorkerView>,
    /// What has been submitted and not yet taken by a worker.
    pub inbound: Seq<Message<T, J>>,
    /// What the workers have published and the pool has not yet received.
    pub outbound: Seq<Message<T, J>>,
}

/// The number of workers for a desired size: the desired size, capped at
/// [`MAX_THREADS`].
pub open spec fn pool_size(desired_size: int) -> int {
    vstd::math::min(desired_size, MAX_THREADS as int)
}

/// What a collection leaves in the slot `slot`, given the jobs that were
/// queued, what the slot held before and what it holds after.
///
/// A slot that no job was submitted for keeps what it held. A slot that jobs
/// were submitted for holds an answer of the last of them: answers are
/// written in the order of submission, and a later one replaces an earlier.
pub open spec fn slot_collected<T, J: FnOnce() -> T>(
    jobs: Seq<Message<T, J>>,
    slot: int,
    before: Option<T>,
    after: Option<T>,
) -> bool {
    &&& (forall|k: int| 0 <= k < jobs.len() ==> (#[trigger] jobs[k]).slot() != slot)
            ==> after == before
    &&& forall|k: int|
            0 <= k < jobs.len() && (#[trigger] jobs[k]).slot() == slot
                && (forall|l: int| k < l < jobs.len() ==> (#[trigger] jobs[l]).slot() != slot)
                ==> (after matches Some(res) && jobs[k].yields(res))
}

impl<T, J: FnOnce() -> T> PoolView<T, J> {
    /// The pool takes jobs: no worker has done anything yet.
    pub open spec fn open(self) -> bool {
        forall|w: int|
            0 <= w < self.workers.len()
                ==> #[trigger] self.workers[w] == WorkerView::fresh(w as nat)
    }

    /// The pool has been stopped: every worker has stopped and nothing is
    /// left in the inbound queue.
    pub open spec fn shut_down(self) -> bool {
        &&& self.inbound.len() == 0
        &&& forall|w: int|
                0 <= w < self.workers.len()
                    ==> (#[trigger] self.workers[w]).state == WorkerState::Stopped
    }

    /// Every worker of the pool has been joined.
    pub open spec fn disposed(self) -> bool {
        forall|w: int| 0 <= w < self.workers.len() ==> (#[trigger] self.workers[w]).joined
    }

    /// The pool once it has been stopped: every worker is at the end of its
    /// service, those with an index below the number of queued jobs having
    /// worked, and the inbound queue is empty. A pool that is shut down stays
    /// as it is.
    pub open spec fn stop(self) -> PoolView<T, J> {
        PoolView {
            workers: Seq::new(
                self.workers.len(),
                |w: int| self.workers[w].stop(w < self.inbound.len()),
            ),
            inbound: Seq::empty(),
            outbound: self.outbound,
        }
    }

    /// The pool once every worker has been waited for.
    pub open spec fn join(self) -> PoolView<T, J> {
        PoolView {
            workers: Seq::new(self.workers.len(), |w: int| self.workers[w].join()),
            inbound: self.inbound,
            outbound: self.outbound,
        }
    }

    /// The invariant of a pool between two calls.
    ///
    /// It has between one and [`MAX_THREADS`] workers, each under its own
    /// index and with a history that agrees with its state. It is either open
    /// or shut down, and its workers are joined all or none. The inbound
    /// queue holds nothing but jobs that are ready to run, and the outbound
    /// queue is empty.
    pub open spec fn wf(self) -> bool {
        &&& 1 <= self.workers.len() <= MAX_THREADS
        &&& forall|w: int|
                0 <= w < self.workers.len()
                    ==> (#[trigger] self.workers[w]).wf() && self.workers[w].id == w
        &&& self.open() || self.shut_down()
        &&& self.disposed()
                || forall|w: int|
                    0 <= w < self.workers.len() ==> !(#[trigger] self.workers[w]).joined
        &&& forall|k: int|
                0 <= k < self.inbound.len() ==> (#[trigger] self.inbound[k]).ready_work()
        &&& self.outbound.len() == 0
    }
}

impl<T, J> View for ThreadPool<T, J> {
    type V = PoolView<T, J>;

    closed spec fn view(&self) -> PoolView<T, J> {
        PoolView {
            workers: self.workers@.map_values(|w: Worker| w@),
            inbound: self.inbound@,
            outbound: self.outbound@,
        }
    }
}

/// Acts on one message received from the outbound queue.
///
/// A `Result` is written into the slot of its position, and the collection
/// goes on. Any other message ends the collection and leaves the slots as
/// they are. The position of a `Result` must have a slot.
pub fn store<T, J>(result: &mut Vec<Option<T>>, message: Message<T, J>) -> (more: bool)
    requires
        message matches Message::Result { pos, .. } ==> pos < old(result).len(),
    ensures
        more == (message is Result),
        message matches Message::Result { pos, res }
            ==> final(result)@ == old(result)@.update(pos as int, Some(res)),
        !(message is Result) ==> final(result)@ == old(result)@,
{
    match message {
        Message::Result { pos, res } => {
            result[pos] = Some(res);
            true
        },
        _ => false,
    }
}

impl<T, J> ThreadPool<T, J> {
    /// The number of workers for a desired size, which must not be zero: the
    /// desired size itself, but never more than [`MAX_THREADS`].
    pub fn threads_determine_qt(desired_size: usize) -> (size: usize)
        requires
            desired_size > 0,
        ensures
            size == pool_size(desired_size as int),
            1 <= size <= MAX_THREADS,
    {
        if desired_size < MAX_THREADS {
            desired_size
        } else {
            MAX_THREADS
        }
    }

    /// The number of workers of the pool.
    pub fn worker_count(&self) -> (count: usize)
        ensures
            count == self@.workers.len(),
    {
        self.workers.len()
    }

    /// The worker with the index `w`.
    pub fn worker(&self, w: usize) -> (worker: &Worker)
        requires
            w < self@.workers.len(),
        ensures
            worker@ == self@.workers[w as int],
    {
        &self.workers[w]
    }

    /// The number of jobs that wait in the inbound queue.
    pub fn queued(&self) -> (count: usize)
        ensures
            count == self@.inbound.len(),
    {
        self.inbound.len()
    }
}

impl<T, J: FnOnce() -> T> ThreadPool<T, J> {
    /// Makes an open pool of `min(desired_size, MAX_THREADS)` fresh workers
    /// with empty queues. The desired size must not be zero.
    pub fn new(desired_size: usize) -> (pool: ThreadPool<T, J>)
        requires
            desired_size > 0,
        ensures
            pool@.wf(),
            pool@.open(),
            pool@.workers.len() == pool_size(desired_size as int),
            1 <= pool@.workers.len() <= MAX_THREADS,
            pool@.inbound.len() == 0,
    {
        let size = Self::threads_determine_qt(desired_size);
        let mut workers: Vec<Worker> = Vec::with_capacity(size);
        for worker_id in 0..size
            invariant
                workers.len() == worker_id,
                forall|w: int|
                    0 <= w < worker_id ==> (#[trigger] workers[w])@ == WorkerView::fresh(w as nat),
        {
            workers.push(Worker::new(worker_id));
        }
        ThreadPool { workers, inbound: VecDeque::new(), outbound: VecDeque::new() }
    }

    /// Submits a job for the position `pos`: it joins the end of the inbound
    /// queue. The pool must be open and the job ready to run.
    pub fn execute(&mut self, pos: usize, f: J)
        requires
            old(self)@.wf(),
            old(self)@.open(),
            f.requires(()),
        ensures
            final(self)@.wf(),
            final(self)@.open(),
            final(self)@.workers == old(self)@.workers,
            final(self)@.inbound == old(self)@.inbound.push(Message::Work { pos, job: f }),
            final(self)@.inbound.len() == old(self)@.inbound.len() + 1,
            final(self)@.inbound[old(self)@.inbound.len() as int]
                == (Message::<T, J>::Work { pos, job: f }),
            forall|k: int|
                0 <= k < old(self)@.inbound.len()
                    ==> final(self)@.inbound[k] == old(self)@.inbound[k],
    {
        self.inbound.push_back(Message::Work { pos, job: f });
    }

    /// Stops the pool and gathers the answers.
    ///
    /// One termination signal per worker joins the inbound queue behind the
    /// jobs. The workers then take turns on the queue, so every job is run
    /// once and every worker stops on a signal of its own; the first jobs go
    /// to the workers in the order of their indices, one each. Every answer
    /// is written into the slot of its position in `result`, in the order in
    /// which the jobs were submitted.
    ///
    /// The pool must be open, and every queued position must have a slot.
    pub fn result(&mut self, result: &mut Vec<Option<T>>)
        requires
            old(self)@.wf(),
            old(self)@.open(),
            forall|k: int|
                0 <= k < old(self)@.inbound.len()
                    ==> (#[trigger] old(self)@.inbound[k]).slot() < old(result).len(),
        ensures
            final(self)@.wf(),
            final(self)@.shut_down(),
            final(self)@ == old(self)@.stop(),
            final(result).len() == old(result).len(),
            forall|i: int|
                0 <= i < old(result).len()
                    ==> slot_collected(
                        old(self)@.inbound,
                        i,
                        old(result)[i],
                        #[trigger] final(result)[i],
                    ),
    {
        let ghost jobs = self.inbound@;
        let ghost slots = result@;
        self.terminate();
        proof {
            self.lemma_fresh_workers(*old(self));
        }
        let ghost queue = self.inbound@;
        self.run_workers();
        let ghost answers = self.outbound@;
        let ghost mut taken: int = 0;
        assert forall|k: int| 0 <= k < jobs.len() implies (#[trigger] jobs[k]).answered_by(
            answers[k],
        ) by {
            assert(queue[k] == jobs[k]);
        }
        loop
            invariant
                self.workers@.len() == old(self).workers@.len(),
                forall|w: int|
                    0 <= w < self.workers@.len()
                        ==> (#[trigger] self.workers@[w])@
                            == WorkerView::fresh(w as nat).stop(w < jobs.len()),
                self.inbound@.len() == 0,
                0 <= taken <= answers.len() == jobs.len(),
                self.outbound@ == answers.subrange(taken, answers.len() as int),
                forall|k: int| 0 <= k < jobs.len() ==> (#[trigger] jobs[k]).answered_by(answers[k]),
                forall|k: int| 0 <= k < jobs.len() ==> (#[trigger] jobs[k]).slot() < slots.len(),
                result.len() == slots.len(),
                forall|i: int|
                    0 <= i < slots.len()
                        ==> slot_collected(jobs.take(taken), i, #[trigger] slots[i], result[i]),
            ensures
                self.outbound@.len() == 0,
                taken == jobs.len(),
            decreases self.outbound@.len(),
        {
            match self.outbound.pop_front() {
                Some(message) => {
                    assert(message == answers[taken]);
                    assert(jobs[taken].answered_by(message));
                    let ghost held = result@;
                    let more = store(result, message);
                    proof {
                        assert forall|i: int| 0 <= i < slots.len() implies slot_collected(
                            jobs.take(taken + 1),
                            i,
                            #[trigger] slots[i],
                            result[i],
                        ) by {
                            lemma_slot_collected_step(
                                jobs,
                                taken,
                                message,
                                i,
                                slots[i],
                                held[i],
                                result[i],
                            );
                        }
                        taken = taken + 1;
                    }
                    if !more {
                        break ;
                    }
                },
                None => {
                    break ;
                },
            }
        }
        proof {
            assert(jobs.take(taken) == jobs);
            self.lemma_stopped(*old(self));
        }
    }

    /// Joins every worker, once.
    ///
    /// A pool that is still open is stopped first, as `result` stops it: the
    /// queued jobs are run and their answers dropped. Then every worker that
    /// has not been joined yet is waited for. The number returned is how many
    /// workers this call joined: all of them the first time, none after that.
    pub fn dispose(&mut self) -> (joined: usize)
        requires
            old(self)@.wf(),
        ensures
            final(self)@.wf(),
            final(self)@.shut_down(),
            final(self)@.disposed(),
            final(self)@ == old(self)@.stop().join(),
            joined == if old(self)@.disposed() { 0 } else { old(self)@.workers.len() },
    {
        if self.is_open() {
            self.terminate();
            proof {
                self.lemma_fresh_workers(*old(self));
            }
            self.run_workers();
            self.outbound.clear();
        }
        proof {
            self.lemma_stopped(*old(self));
        }
        let ghost stopped = old(self)@.stop();
        let size = self.workers.len();
        let mut joined: usize = 0;
        for w in 0..size
            invariant
                size == self.workers.len() == stopped.workers.len(),
                self.inbound@.len() == 0,
                self.outbound@.len() == 0,
                stopped == old(self)@.stop(),
                old(self)@.wf(),
                forall|v: int|
                    0 <= v < size ==> (#[trigger] stopped.workers[v]).state == WorkerState::Stopped,
                forall|v: int|
                    0 <= v < w ==> (#[trigger] self.workers[v])@ == stopped.workers[v].join(),
                forall|v: int|
                    w <= v < size ==> (#[trigger] self.workers[v])@ == stopped.workers[v],
                joined == if old(self)@.disposed() { 0 } else { w },
        {
            assert(stopped.workers[w as int].joined == old(self)@.workers[w as int].joined);
            if self.workers[w].join() {
                joined = joined + 1;
            }
        }
        assert(self@.workers == stopped.join().workers);
        assert(self@.inbound == stopped.join().inbound);
        assert(self@.outbound == stopped.join().outbound);
        joined
    }

    /// Whether the pool still takes jobs.
    pub fn is_open(&self) -> (open: bool)
        requires
            self@.wf(),
        ensures
            open == self@.open(),
    {
        assert(self@.workers[0] == self.workers[0]@);
        match self.workers[0].state() {
            WorkerState::Running => true,
            _ => false,
        }
    }

    /// Appends one termination signal per worker to the inbound queue.
    fn terminate(&mut self)
        ensures
            final(self).workers == old(self).workers,
            final(self).outbound == old(self).outbound,
            final(self).inbound@ == old(self).inbound@ + Seq::new(
                old(self).workers.len() as nat,
                |i: int| Message::<T, J>::Terminate,
            ),
    {
        let ghost queued = self.inbound@;
        let size = self.workers.len();
        for sent in 0..size
            invariant
                size == self.workers.len(),
                self.workers == old(self).workers,
                self.outbound == old(self).outbound,
                self.inbound@ == queued + Seq::new(
                    sent as nat,
                    |i: int| Message::<T, J>::Terminate,
                ),
        {
            self.inbound.push_back(Message::Terminate);
            assert(self.inbound@ == queued + Seq::new(
                (sent + 1) as nat,
                |i: int| Message::<T, J>::Terminate,
            ));
        }
    }

    /// The worker `w` takes the oldest message from the inbound queue and
    /// acts on it: it publishes the answer of a job, and it stops on anything
    /// else.
    fn step(&mut self, w: usize)
        requires
            w < old(self).workers.len(),
            old(self).workers[w as int]@.state == WorkerState::Running,
            old(self).inbound@.len() > 0,
            old(self).inbound@[0].ready(),
        ensures
            final(self).inbound@ == old(self).inbound@.drop_first(),
            final(self).workers.len() == old(self).workers.len(),
            forall|v: int|
                0 <= v < old(self).workers.len() && v != w
                    ==> final(self).workers[v] == old(self).workers[v],
            old(self).inbound@[0] is Work ==> {
                &&& final(self).workers[w as int]@ == old(self).workers[w as int]@.work()
                &&& final(self).outbound@.len() == old(self).outbound@.len() + 1
                &&& final(self).outbound@.drop_last() == old(self).outbound@
                &&& old(self).inbound@[0].answered_by(final(self).outbound@.last())
            },
            !(old(self).inbound@[0] is Work) ==> {
                &&& final(self).workers[w as int]@
                        == old(self).workers[w as int]@.drain().release()
                &&& final(self).outbound@ == old(self).outbound@
            },
    {
        match self.inbound.pop_front() {
            Some(message) => {
                match self.workers[w].serve(message) {
                    Some(reply) => {
                        self.outbound.push_back(reply);
                        assert(self.outbound@.drop_last() == old(self).outbound@);
                    },
                    None => {
                        self.workers[w].release();
                    },
                }
            },
            None => {},
        }
    }

    /// Lets the workers take turns on the inbound queue until it is empty.
    ///
    /// The queue holds jobs and, behind them, one termination signal per
    /// worker. The jobs go round the workers in the order of their indices.
    /// Then each worker takes one signal and stops.
    fn run_workers(&mut self)
        requires
            1 <= old(self).workers.len() <= old(self).inbound@.len(),
            forall|w: int|
                0 <= w < old(self).workers.len()
                    ==> (#[trigger] old(self).workers[w])@ == WorkerView::fresh(w as nat),
            forall|k: int|
                0 <= k < old(self).inbound@.len() - old(self).workers.len()
                    ==> (#[trigger] old(self).inbound@[k]).ready_work(),
            forall|k: int|
                old(self).inbound@.len() - old(self).workers.len() <= k < old(self).inbound@.len()
                    ==> (#[trigger] old(self).inbound@[k]) is Terminate,
            old(self).outbound@.len() == 0,
        ensures
            final(self).inbound@.len() == 0,
            final(self).workers.len() == old(self).workers.len(),
            forall|w: int|
                0 <= w < final(self).workers.len()
                    ==> (#[trigger] final(self).workers[w])@ == WorkerView::fresh(w as nat).stop(
                        w < old(self).inbound@.len() - old(self).workers.len(),
                    ),
            final(self).outbound@.len() == old(self).inbound@.len() - old(self).workers.len(),
            forall|k: int|
                0 <= k < final(self).outbound@.len()
                    ==> (#[trigger] old(self).inbound@[k]).answered_by(final(self).outbound@[k]),
    {
        let ghost queue = self.inbound@;
        let size = self.workers.len();
        let ghost jobs = queue.len() - size;
        let mut next: usize = 0;
        let ghost mut done: int = 0;
        while self.inbound.len() > size
            invariant
                self.workers.len() == size,
                1 <= size <= queue.len(),
                jobs == queue.len() - size,
                0 <= done <= jobs,
                self.inbound@ == queue.subrange(done, queue.len() as int),
                forall|k: int| 0 <= k < jobs ==> (#[trigger] queue[k]).ready_work(),
                forall|k: int| jobs <= k < queue.len() ==> (#[trigger] queue[k]) is Terminate,
                self.outbound@.len() == done,
                forall|k: int|
                    0 <= k < done ==> (#[trigger] queue[k]).answered_by(self.outbound@[k]),
                next < size,
                done < size ==> next == done,
                forall|w: int|
                    0 <= w < size
                        ==> (#[trigger] self.workers[w])@ == if w < done {
                            WorkerView::fresh(w as nat).work()
                        } else {
                            WorkerView::fresh(w as nat)
                        },
            ensures
                done == jobs,
            decreases self.inbound@.len(),
        {
            assert(self.inbound@[0] == queue[done]);
            self.step(next);
            proof {
                assert(self.inbound@ == queue.subrange(done + 1, queue.len() as int));
                assert forall|k: int| 0 <= k < done + 1 implies (#[trigger] queue[k]).answered_by(
                    self.outbound@[k],
                ) by {
                    if k < done {
                        assert(self.outbound@[k] == self.outbound@.drop_last()[k]);
                    }
                }
                done = done + 1;
            }
            next = if next + 1 == size { 0 } else { next + 1 };
        }
        let mut w: usize = 0;
        while w < size
            invariant
                self.workers.len() == size,
                1 <= size <= queue.len(),
                jobs == queue.len() - size,
                0 <= w <= size,
                self.inbound@ == queue.subrange(jobs + w, queue.len() as int),
                forall|k: int| jobs <= k < queue.len() ==> (#[trigger] queue[k]) is Terminate,
                self.outbound@.len() == jobs,
                forall|k: int|
                    0 <= k < jobs ==> (#[trigger] queue[k]).answered_by(self.outbound@[k]),
                forall|v: int|
                    0 <= v < w
                        ==> (#[trigger] self.workers[v])@
                            == WorkerView::fresh(v as nat).stop(v < jobs),
                forall|v: int|
                    w <= v < size
                        ==> (#[trigger] self.workers[v])@ == if v < jobs {
                            WorkerView::fresh(v as nat).work()
                        } else {
                            WorkerView::fresh(v as nat)
                        },
            decreases size - w,
        {
            assert(self.inbound@[0] == queue[jobs + w]);
            self.step(w);
            assert(self.inbound@ == queue.subrange(jobs + w + 1, queue.len() as int));
            w = w + 1;
        }
    }

    /// Once the termination signals have been appended to the queue of the
    /// open pool `before`, the pool is ready for `run_workers`.
    proof fn lemma_fresh_workers(self, before: Self)
        requires
            before@.wf(),
            before@.open(),
            self.workers == before.workers,
            self.outbound == before.outbound,
            self.inbound@ == before.inbound@ + Seq::new(
                before.workers.len() as nat,
                |i: int| Message::<T, J>::Terminate,
            ),
        ensures
            1 <= self.workers.len() <= self.inbound@.len(),
            self.inbound@.len() - self.workers.len() == before@.inbound.len(),
            forall|w: int|
                0 <= w < self.workers.len()
                    ==> (#[trigger] self.workers[w])@ == WorkerView::fresh(w as nat),
            forall|k: int|
                0 <= k < before@.inbound.len()
                    ==> (#[trigger] self.inbound@[k]).ready_work()
                        && self.inbound@[k] == before@.inbound[k],
            forall|k: int|
                before@.inbound.len() <= k < self.inbound@.len()
                    ==> (#[trigger] self.inbound@[k]) is Terminate,
            self.outbound@.len() == 0,
    {
        assert forall|w: int| 0 <= w < self.workers.len() implies (#[trigger] self.workers[w])@
            == WorkerView::fresh(w as nat) by {
            assert(before@.workers[w] == self.workers[w]@);
        }
        assert forall|k: int| 0 <= k < before@.inbound.len() implies (#[trigger] self.inbound@[k])
            == before@.inbound[k] by {}
    }

    /// A pool whose queues are empty and whose workers are those of `before`
    /// at the end of their service is `before`, stopped.
    proof fn lemma_stopped(self, before: Self)
        requires
            before@.wf(),
            self.inbound@.len() == 0,
            self.outbound@.len() == 0,
            self.workers@.len() == before.workers@.len(),
            before@.open() ==> forall|w: int|
                0 <= w < self.workers@.len()
                    ==> (#[trigger] self.workers@[w])@ == WorkerView::fresh(w as nat).stop(
                        w < before@.inbound.len(),
                    ),
            !before@.open() ==> self.workers == before.workers,
        ensures
            self@ == before@.stop(),
            self@.wf(),
            self@.shut_down(),
    {
        assert forall|w: int| 0 <= w < self.workers@.len() implies #[trigger] self@.workers[w]
            == before@.stop().workers[w] by {
            assert(self@.workers[w] == self.workers@[w]@);
            assert(before@.workers[w] == before.workers@[w]@);
        }
        assert(self@.workers == before@.stop().workers);
        assert(self@.inbound == before@.stop().inbound);
        assert(self@.outbound == before@.stop().outbound);
    }
}

/// Writing the answer of the job `jobs[upto]` into its slot extends what has
/// been collected from the first `upto` jobs to the first `upto + 1`.
proof fn lemma_slot_collected_step<T, J: FnOnce() -> T>(
    jobs: Seq<Message<T, J>>,
    upto: int,
    answer: Message<T, J>,
    slot: int,
    before: Option<T>,
    held: Option<T>,
    after: Option<T>,
)
    requires
        0 <= upto < jobs.len(),
        jobs[upto].answered_by(answer),
        slot_collected(jobs.take(upto), slot, before, held),
        after == if jobs[upto].slot() == slot { Some(answer->Result_res) } else { held },
    ensures
        slot_collected(jobs.take(upto + 1), slot, before, after),
{
    let shorter = jobs.take(upto);
    let longer = jobs.take(upto + 1);
    assert(longer[upto] == jobs[upto]);
    assert forall|k: int| 0 <= k < upto implies #[trigger] longer[k] == shorter[k] by {}
    if jobs[upto].slot() == slot {
        assert(longer[upto].slot() == slot);
    } else {
        if forall|k: int| 0 <= k < longer.len() ==> (#[trigger] longer[k]).slot() != slot {
            assert forall|k: int| 0 <= k < shorter.len() implies (#[trigger] shorter[k]).slot()
                != slot by {
                assert(longer[k] == shorter[k]);
            }
        }
        assert forall|k: int|
            0 <= k < longer.len() && (#[trigger] longer[k]).slot() == slot
                && (forall|l: int| k < l < longer.len() ==> (#[trigger] longer[l]).slot() != slot)
            implies (after matches Some(res) && longer[k].yields(res)) by {
            assert(k < upto);
            assert(shorter[k] == longer[k]);
            assert forall|l: int| k < l < shorter.len() implies (#[trigger] shorter[l]).slot()
                != slot by {
                assert(longer[l] == shorter[l]);
            }
        }
    }
}

} // verus!
