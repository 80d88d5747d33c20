//! The protocol of the pool when every worker runs on its own.
//!
//! A run starts with idle workers and empty queues. The pool puts the jobs of
//! a batch into the inbound queue and, behind them, one termination signal
//! per worker. Each worker takes the oldest message whenever it is idle, is
//! busy with a job for as long as the job takes, and publishes the answer;
//! a termination signal makes it give up its end of the outbound queue and
//! stop. The pool stores every answer it receives in the slot of its
//! position, and its collection ends when the outbound queue is closed: empty,
//! with every worker stopped.
//!
//! For a host that gives each worker a thread, taking is the worker's receive
//! from the inbound queue, publishing is its send of what `Worker::serve`
//! returned for a job, giving up is `Worker::release`, and storing is `store`.
//! The steps of different workers may come in any order there, so answers may
//! reach the pool in any order. The two laws of this module say that this
//! does not show in the outcome. When the collection of a batch with one job
//! per position ends, no answer is missing and every slot holds what
//! `ThreadPool::result` leaves in it; and whatever `ThreadPool::result` may
//! leave in the slots is the outcome of a run.
use vstd::prelude::*;
use crate::message::Message;
use crate::pool::slot_collected;

verus! {

/// A worker as the other parties of the protocol see it. `Idle` and `Busy`
/// are the two faces of a running worker.
pub enum Agent<J> {
    /// Running, and waiting for a message.
    Idle,
    /// Running the job that it took for the position `pos`.
    Busy { pos: usize, job: J },
    /// Told to stop, with its end of the outbound queue still in hand.
    Draining,
    /// Stopped for good.
    Stopped,
}

/// One moment of a run.
pub struct Moment<T, J> {
    /// How many messages the pool has put into the inbound queue.
    pub sent: nat,
    /// How many of them the workers have taken out.
    pub taken: nat,
    /// The workers, in the order of their indices.
    pub agents: Seq<Agent<J>>,
    /// The outbound queue, oldest message first.
    pub outbound: Seq<Message<T, J>>,
    /// The result collection.
    pub slots: Seq<Option<T>>,
}

/// The jobs form a batch for `slots` slots: each is a `Work` message whose
/// position has a slot, and no two share a position.
pub open spec fn batch<T, J: FnOnce() -> T>(jobs: Seq<Message<T, J>>, slots: nat) -> bool {
    &&& forall|k: int|
            0 <= k < jobs.len() ==> (#[trigger] jobs[k]) is Work && jobs[k].slot() < slots
    &&& forall|k: int, l: int|
            0 <= k < l < jobs.len() ==> (#[trigger] jobs[k]).slot() != (#[trigger] jobs[l]).slot()
}

/// Everything that the pool puts into the inbound queue in the course of a
/// run, in this order: the jobs, then one termination signal per worker.
pub open spec fn script<T, J>(jobs: Seq<Message<T, J>>, size: nat) -> Seq<Message<T, J>> {
    jobs + Seq::new(size, |i: int| Message::<T, J>::Terminate)
}

impl<T, J: FnOnce() -> T> Moment<T, J> {
    /// The first moment of a run with `size` workers over the given slots.
    pub open spec fn start(size: nat, slots: Seq<Option<T>>) -> Moment<T, J> {
        Moment {
            sent: 0,
            taken: 0,
            agents: Seq::new(size, |w: int| Agent::Idle),
            outbound: Seq::empty(),
            slots,
        }
    }

    /// The pool puts the next message of the script into the inbound queue.
    pub open spec fn submits(self, jobs: Seq<Message<T, J>>, size: nat, then: Moment<T, J>) -> bool {
        &&& self.sent < script(jobs, size).len()
        &&& then == Moment { sent: self.sent + 1, ..self }
    }

    /// The idle worker `w` takes the oldest message out of the inbound
    /// queue: with a job it is busy from now on, with anything else it goes
    /// on to stop.
    pub open spec fn takes(
        self,
        jobs: Seq<Message<T, J>>,
        size: nat,
        then: Moment<T, J>,
        w: int,
    ) -> bool {
        &&& 0 <= w < self.agents.len()
        &&& self.agents[w] is Idle
        &&& self.taken < self.sent
        &&& then == Moment {
            taken: self.taken + 1,
            agents: self.agents.update(
                w,
                match script(jobs, size)[self.taken as int] {
                    Message::Work { pos, job } => Agent::Busy { pos, job },
                    _ => Agent::Draining,
                },
            ),
            ..self
        }
    }

    /// The busy worker `w` has run its job and publishes `reply`, an answer
    /// to the message it took. It is idle again.
    pub open spec fn publishes(self, then: Moment<T, J>, w: int, reply: Message<T, J>) -> bool {
        &&& 0 <= w < self.agents.len()
        &&& self.agents[w] matches Agent::Busy { pos, job }
        &&& (Message::<T, J>::Work { pos, job }).answered_by(reply)
        &&& then == Moment {
            agents: self.agents.update(w, Agent::Idle),
            outbound: self.outbound.push(reply),
            ..self
        }
    }

    /// The draining worker `w` gives up its end of the outbound queue and
    /// stops.
    pub open spec fn releases(self, then: Moment<T, J>, w: int) -> bool {
        &&& 0 <= w < self.agents.len()
        &&& self.agents[w] is Draining
        &&& then == Moment { agents: self.agents.update(w, Agent::Stopped), ..self }
    }

    /// The pool receives the oldest message of the outbound queue, a result
    /// whose position has a slot, and stores it there.
    pub open spec fn collects(self, then: Moment<T, J>) -> bool {
        &&& self.outbound.len() > 0
        &&& self.outbound[0] matches Message::Result { pos, res }
        &&& pos < self.slots.len()
        &&& then == Moment {
            outbound: self.outbound.drop_first(),
            slots: self.slots.update(pos as int, Some(res)),
            ..self
        }
    }

    /// One step of a run: one party does one thing.
    pub open spec fn next(self, jobs: Seq<Message<T, J>>, size: nat, then: Moment<T, J>) -> bool {
        ||| self.submits(jobs, size, then)
        ||| exists|w: int| #[trigger] self.takes(jobs, size, then, w)
        ||| exists|w: int, reply: Message<T, J>| #[trigger] self.publishes(then, w, reply)
        ||| exists|w: int| #[trigger] self.releases(then, w)
        ||| self.collects(then)
    }

    /// The outbound queue is closed: it is empty and every worker has
    /// stopped, so nothing can be put into it any more. This is when the
    /// collection ends.
    pub open spec fn closed(self) -> bool {
        &&& self.outbound.len() == 0
        &&& forall|w: int| 0 <= w < self.agents.len() ==> (#[trigger] self.agents[w]) is Stopped
    }

    /// The moments `run` form a run of `size` workers on the batch `jobs`
    /// over the slots `before`: the first is the start, and each of the
    /// others is one step after the moment before it.
    pub open spec fn is_run(
        run: Seq<Moment<T, J>>,
        jobs: Seq<Message<T, J>>,
        size: nat,
        before: Seq<Option<T>>,
    ) -> bool {
        &&& run.len() > 0
        &&& run[0] == Self::start(size, before)
        &&& forall|i: int|
                0 <= i < run.len() - 1 ==> (#[trigger] run[i]).next(jobs, size, run[i + 1])
    }
}

/// The collection of a batch is complete when it ends, whatever the order in
/// which the workers took their messages and published their answers.
///
/// Take any run of one or more workers on a batch with one job per position,
/// and a moment of it at which the outbound queue is closed. Then the workers
/// have taken every message, and every slot holds what `ThreadPool::result`
/// leaves in it: an answer of the job for its position, or what it held at
/// the start where there is no such job.
pub proof fn lemma_closed_run_is_collected<T, J: FnOnce() -> T>(
    run: Seq<Moment<T, J>>,
    jobs: Seq<Message<T, J>>,
    size: nat,
    before: Seq<Option<T>>,
    at: int,
)
    requires
        batch(jobs, before.len()),
        size >= 1,
        Moment::is_run(run, jobs, size, before),
        0 <= at < run.len(),
        run[at].closed(),
    ensures
        run[at].taken == jobs.len() + size,
        run[at].slots.len() == before.len(),
        forall|i: int|
            0 <= i < before.len()
                ==> slot_collected(jobs, i, before[i], #[trigger] run[at].slots[i]),
{
    lemma_run_inv(run, jobs, size, before, at);
    lemma_closed_inv_is_collected(run[at], jobs, size, before);
}

/// What `ThreadPool::result` may leave in the slots, a run of the protocol
/// leaves there too.
///
/// Take a batch with one job per position and slots `after` that hold, as
/// `slot_collected` says, an answer of its job where there is a job and what
/// `before` held where there is none. Then there is a run of any number of
/// workers on that batch which starts over `before` and ends, with the
/// outbound queue closed, over `after`.
pub proof fn lemma_collected_is_a_closed_run<T, J: FnOnce() -> T>(
    jobs: Seq<Message<T, J>>,
    size: nat,
    before: Seq<Option<T>>,
    after: Seq<Option<T>>,
) -> (run: Seq<Moment<T, J>>)
    requires
        batch(jobs, before.len()),
        size >= 1,
        after.len() == before.len(),
        forall|i: int|
            0 <= i < before.len() ==> slot_collected(jobs, i, before[i], #[trigger] after[i]),
    ensures
        Moment::is_run(run, jobs, size, before),
        run.last().closed(),
        run.last().slots == after,
{
    let run = lemma_run_of_stops(jobs, size, before, after, size);
    let slots = slots_midway(jobs, before, after, jobs.len() as int);
    assert(slots =~= after) by {
        assert forall|i: int| 0 <= i < before.len() implies slots[i] == after[i] by {
            assert(slot_collected(jobs, i, before[i], after[i]));
            if !(exists|k: int| 0 <= k < jobs.len() && (#[trigger] jobs[k]).slot() == i) {
                assert forall|k: int| 0 <= k < jobs.len() implies (#[trigger] jobs[k]).slot()
                    != i by {}
            }
        }
    }
    run
}

// The invariant of a run, and why every step keeps it.

impl<J> Agent<J> {
    /// The worker has taken its termination signal.
    spec fn halted(self) -> bool {
        self is Draining || self is Stopped
    }

    /// The worker is busy with the job of the message `work`.
    spec fn holds<T>(self, work: Message<T, J>) -> bool {
        self matches Agent::Busy { pos, job } && work == (Message::<T, J>::Work { pos, job })
    }
}

impl<T, J: FnOnce() -> T> Moment<T, J> {
    /// Some worker is busy with the job `work`.
    spec fn in_hand(self, work: Message<T, J>) -> bool {
        exists|w: int| 0 <= w < self.agents.len() && (#[trigger] self.agents[w]).holds(work)
    }

    /// The outbound queue holds an answer to the job `work`.
    spec fn answered(self, work: Message<T, J>) -> bool {
        exists|i: int|
            0 <= i < self.outbound.len() && work.answered_by(#[trigger] self.outbound[i])
    }

    /// The slot of the job `work` holds an answer of that job.
    spec fn stored(self, work: Message<T, J>) -> bool {
        &&& work.slot() < self.slots.len()
        &&& self.slots[work.slot()] matches Some(res)
        &&& work.yields(res)
    }
}

/// The number of workers among `agents` that have taken their termination
/// signal.
spec fn halted<J>(agents: Seq<Agent<J>>) -> nat
    decreases agents.len(),
{
    if agents.len() == 0 {
        0
    } else {
        halted(agents.drop_last()) + if agents.last().halted() { 1nat } else { 0nat }
    }
}

/// One of the first `done` jobs is the one that `agent` is busy with.
spec fn held_from<T, J: FnOnce() -> T>(
    agent: Agent<J>,
    jobs: Seq<Message<T, J>>,
    done: int,
) -> bool {
    exists|k: int| 0 <= k < done && agent.holds(#[trigger] jobs[k])
}

/// `reply` answers one of the first `done` jobs.
spec fn answers_one<T, J: FnOnce() -> T>(
    reply: Message<T, J>,
    jobs: Seq<Message<T, J>>,
    done: int,
) -> bool {
    exists|k: int| 0 <= k < done && (#[trigger] jobs[k]).answered_by(reply)
}

/// `held` is an answer of one of the first `done` jobs whose position is
/// `slot`.
spec fn stores_one<T, J: FnOnce() -> T>(
    held: Option<T>,
    slot: int,
    jobs: Seq<Message<T, J>>,
    done: int,
) -> bool {
    exists|k: int|
        0 <= k < done && (#[trigger] jobs[k]).slot() == slot
            && (held matches Some(res) && jobs[k].yields(res))
}

/// How many of the jobs have been taken when `taken` messages have been.
spec fn jobs_taken<T, J>(jobs: Seq<Message<T, J>>, taken: nat) -> int {
    vstd::math::min(taken as int, jobs.len() as int)
}

/// What holds at every moment of a run of `size` workers on the batch `jobs`
/// that started over the slots `before`.
///
/// The workers have taken no more messages than were sent, and as many
/// workers have halted as termination signals were taken. Every job that was
/// taken is in the hand of a worker, answered in the outbound queue, or
/// stored in its slot: none is lost. Nothing else is anywhere: a busy worker
/// holds a job that was taken, a message in the outbound queue answers one,
/// and a slot holds what it held at the start or an answer of a job for its
/// position.
spec fn inv<T, J: FnOnce() -> T>(
    now: Moment<T, J>,
    jobs: Seq<Message<T, J>>,
    size: nat,
    before: Seq<Option<T>>,
) -> bool {
    let done = jobs_taken(jobs, now.taken);
    &&& now.taken <= now.sent <= jobs.len() + size
    &&& now.agents.len() == size
    &&& now.slots.len() == before.len()
    &&& halted(now.agents) == now.taken - done
    &&& forall|w: int|
            0 <= w < size && (#[trigger] now.agents[w]) is Busy
                ==> held_from(now.agents[w], jobs, done)
    &&& forall|i: int|
            0 <= i < now.outbound.len() ==> answers_one(#[trigger] now.outbound[i], jobs, done)
    &&& forall|i: int|
            0 <= i < before.len()
                ==> (#[trigger] now.slots[i]) == before[i]
                    || stores_one(now.slots[i], i, jobs, done)
    &&& forall|k: int|
            0 <= k < done
                ==> now.in_hand(#[trigger] jobs[k]) || now.answered(jobs[k])
                    || now.stored(jobs[k])
}

/// Putting another value in the place of one worker changes the number of
/// halted workers by what the two differ in.
proof fn lemma_halted_update<J>(agents: Seq<Agent<J>>, w: int, agent: Agent<J>)
    requires
        0 <= w < agents.len(),
    ensures
        halted(agents.update(w, agent)) + (if agents[w].halted() { 1nat } else { 0nat })
            == halted(agents) + (if agent.halted() { 1nat } else { 0nat }),
    decreases agents.len(),
{
    let changed = agents.update(w, agent);
    if w == agents.len() - 1 {
        assert(changed.drop_last() == agents.drop_last());
    } else {
        assert(changed.drop_last() == agents.drop_last().update(w, agent));
        lemma_halted_update(agents.drop_last(), w, agent);
    }
}

/// Where every worker has halted, as many have halted as there are workers,
/// and where none has, none.
proof fn lemma_halted_all_or_none<J>(agents: Seq<Agent<J>>)
    ensures
        (forall|w: int| 0 <= w < agents.len() ==> (#[trigger] agents[w]).halted())
            ==> halted(agents) == agents.len(),
        (forall|w: int| 0 <= w < agents.len() ==> !(#[trigger] agents[w]).halted())
            ==> halted(agents) == 0,
    decreases agents.len(),
{
    if agents.len() > 0 {
        let front = agents.drop_last();
        lemma_halted_all_or_none(front);
        if forall|w: int| 0 <= w < agents.len() ==> (#[trigger] agents[w]).halted() {
            assert forall|w: int| 0 <= w < front.len() implies (#[trigger] front[w]).halted() by {
                assert(front[w] == agents[w]);
            }
        }
        if forall|w: int| 0 <= w < agents.len() ==> !(#[trigger] agents[w]).halted() {
            assert forall|w: int| 0 <= w < front.len() implies !(#[trigger] front[w]).halted() by {
                assert(front[w] == agents[w]);
            }
        }
    }
}

/// The invariant holds at the start of a run.
proof fn lemma_start_inv<T, J: FnOnce() -> T>(
    jobs: Seq<Message<T, J>>,
    size: nat,
    before: Seq<Option<T>>,
)
    ensures
        inv(Moment::<T, J>::start(size, before), jobs, size, before),
{
    lemma_halted_all_or_none(Moment::<T, J>::start(size, before).agents);
}

/// A job that is among the first `done` is among the first `more`, where
/// `more` is no less: what the invariant says of the jobs taken so far is
/// still true when another has been taken.
proof fn lemma_more_done<T, J: FnOnce() -> T>(jobs: Seq<Message<T, J>>, done: int, more: int)
    requires
        done <= more,
    ensures
        forall|agent: Agent<J>| #[trigger]
            held_from(agent, jobs, done) ==> held_from(agent, jobs, more),
        forall|reply: Message<T, J>| #[trigger]
            answers_one(reply, jobs, done) ==> answers_one(reply, jobs, more),
        forall|held: Option<T>, slot: int| #[trigger]
            stores_one(held, slot, jobs, done) ==> stores_one(held, slot, jobs, more),
{
    assert forall|agent: Agent<J>| #[trigger] held_from(agent, jobs, done) implies held_from(
        agent,
        jobs,
        more,
    ) by {
        let k = choose|k: int| 0 <= k < done && agent.holds(#[trigger] jobs[k]);
        assert(agent.holds(jobs[k]));
    }
    assert forall|reply: Message<T, J>| #[trigger]
        answers_one(reply, jobs, done) implies answers_one(reply, jobs, more) by {
        let k = choose|k: int| 0 <= k < done && (#[trigger] jobs[k]).answered_by(reply);
        assert(jobs[k].answered_by(reply));
    }
    assert forall|held: Option<T>, slot: int| #[trigger]
        stores_one(held, slot, jobs, done) implies stores_one(held, slot, jobs, more) by {
        let k = choose|k: int|
            0 <= k < done && (#[trigger] jobs[k]).slot() == slot
                && (held matches Some(res) && jobs[k].yields(res));
        assert(jobs[k].slot() == slot);
    }
}

/// Submitting keeps the invariant.
proof fn lemma_submits_inv<T, J: FnOnce() -> T>(
    now: Moment<T, J>,
    then: Moment<T, J>,
    jobs: Seq<Message<T, J>>,
    size: nat,
    before: Seq<Option<T>>,
)
    requires
        inv(now, jobs, size, before),
        now.submits(jobs, size, then),
    ensures
        inv(then, jobs, size, before),
{
    let done = jobs_taken(jobs, now.taken);
    assert(then.agents == now.agents);
    assert(then.outbound == now.outbound);
    assert(then.slots == now.slots);
    assert forall|k: int| 0 <= k < done implies then.in_hand(#[trigger] jobs[k])
        || then.answered(jobs[k]) || then.stored(jobs[k]) by {
        if now.in_hand(jobs[k]) {
            assert(then.in_hand(jobs[k]));
        } else if now.answered(jobs[k]) {
            assert(then.answered(jobs[k]));
        } else {
            assert(then.stored(jobs[k]));
        }
    }
}

/// Taking a message keeps the invariant.
proof fn lemma_takes_inv<T, J: FnOnce() -> T>(
    now: Moment<T, J>,
    then: Moment<T, J>,
    w: int,
    jobs: Seq<Message<T, J>>,
    size: nat,
    before: Seq<Option<T>>,
)
    requires
        batch(jobs, before.len()),
        inv(now, jobs, size, before),
        now.takes(jobs, size, then, w),
    ensures
        inv(then, jobs, size, before),
{
    let done = jobs_taken(jobs, now.taken);
    let more = jobs_taken(jobs, then.taken);
    let message = script(jobs, size)[now.taken as int];
    lemma_halted_update(now.agents, w, then.agents[w]);
    lemma_more_done(jobs, done, more);
    assert(then.outbound == now.outbound);
    assert(then.slots == now.slots);
    if now.taken < jobs.len() {
        assert(message == jobs[now.taken as int]);
        assert(then.agents[w].holds(jobs[now.taken as int]));
    } else {
        assert(message is Terminate);
    }
    assert forall|v: int| 0 <= v < size && (#[trigger] then.agents[v]) is Busy implies held_from(
        then.agents[v],
        jobs,
        more,
    ) by {
        if v != w {
            assert(now.agents[v] is Busy);
        }
    }
    assert forall|k: int| 0 <= k < more implies then.in_hand(#[trigger] jobs[k])
        || then.answered(jobs[k]) || then.stored(jobs[k]) by {
        if k < done {
            if now.in_hand(jobs[k]) {
                let v = choose|v: int|
                    0 <= v < now.agents.len() && (#[trigger] now.agents[v]).holds(jobs[k]);
                assert(then.agents[v].holds(jobs[k]));
            } else if now.answered(jobs[k]) {
                assert(then.answered(jobs[k]));
            } else {
                assert(then.stored(jobs[k]));
            }
        } else {
            assert(then.agents[w].holds(jobs[k]));
        }
    }
}

/// Publishing an answer keeps the invariant.
proof fn lemma_publishes_inv<T, J: FnOnce() -> T>(
    now: Moment<T, J>,
    then: Moment<T, J>,
    w: int,
    reply: Message<T, J>,
    jobs: Seq<Message<T, J>>,
    size: nat,
    before: Seq<Option<T>>,
)
    requires
        inv(now, jobs, size, before),
        now.publishes(then, w, reply),
    ensures
        inv(then, jobs, size, before),
{
    let done = jobs_taken(jobs, now.taken);
    lemma_halted_update(now.agents, w, then.agents[w]);
    assert forall|v: int| 0 <= v < size && (#[trigger] then.agents[v]) is Busy implies held_from(
        then.agents[v],
        jobs,
        done,
    ) by {
        assert(now.agents[v] is Busy);
    }
    assert forall|i: int| 0 <= i < then.outbound.len() implies answers_one(
        #[trigger] then.outbound[i],
        jobs,
        done,
    ) by {
        if i < now.outbound.len() {
            assert(then.outbound[i] == now.outbound[i]);
        } else {
            assert(held_from(now.agents[w], jobs, done));
            let k = choose|k: int| 0 <= k < done && now.agents[w].holds(#[trigger] jobs[k]);
            assert(jobs[k].answered_by(reply));
        }
    }
    assert forall|k: int| 0 <= k < done implies then.in_hand(#[trigger] jobs[k])
        || then.answered(jobs[k]) || then.stored(jobs[k]) by {
        if now.in_hand(jobs[k]) {
            let v = choose|v: int|
                0 <= v < now.agents.len() && (#[trigger] now.agents[v]).holds(jobs[k]);
            if v == w {
                assert(jobs[k].answered_by(then.outbound[now.outbound.len() as int]));
            } else {
                assert(then.agents[v].holds(jobs[k]));
            }
        } else if now.answered(jobs[k]) {
            let i = choose|i: int|
                0 <= i < now.outbound.len() && jobs[k].answered_by(#[trigger] now.outbound[i]);
            assert(jobs[k].answered_by(then.outbound[i]));
        }
    }
}

/// Giving up the outbound queue keeps the invariant.
proof fn lemma_releases_inv<T, J: FnOnce() -> T>(
    now: Moment<T, J>,
    then: Moment<T, J>,
    w: int,
    jobs: Seq<Message<T, J>>,
    size: nat,
    before: Seq<Option<T>>,
)
    requires
        inv(now, jobs, size, before),
        now.releases(then, w),
    ensures
        inv(then, jobs, size, before),
{
    let done = jobs_taken(jobs, now.taken);
    lemma_halted_update(now.agents, w, then.agents[w]);
    assert(then.outbound == now.outbound);
    assert(then.slots == now.slots);
    assert forall|v: int| 0 <= v < size && (#[trigger] then.agents[v]) is Busy implies held_from(
        then.agents[v],
        jobs,
        done,
    ) by {
        assert(now.agents[v] is Busy);
    }
    assert forall|k: int| 0 <= k < done implies then.in_hand(#[trigger] jobs[k])
        || then.answered(jobs[k]) || then.stored(jobs[k]) by {
        if now.in_hand(jobs[k]) {
            let v = choose|v: int|
                0 <= v < now.agents.len() && (#[trigger] now.agents[v]).holds(jobs[k]);
            assert(then.agents[v].holds(jobs[k]));
        } else if now.answered(jobs[k]) {
            assert(then.answered(jobs[k]));
        } else {
            assert(then.stored(jobs[k]));
        }
    }
}

/// Storing an answer keeps the invariant.
proof fn lemma_collects_inv<T, J: FnOnce() -> T>(
    now: Moment<T, J>,
    then: Moment<T, J>,
    jobs: Seq<Message<T, J>>,
    size: nat,
    before: Seq<Option<T>>,
)
    requires
        batch(jobs, before.len()),
        inv(now, jobs, size, before),
        now.collects(then),
    ensures
        inv(then, jobs, size, before),
{
    let done = jobs_taken(jobs, now.taken);
    let first = now.outbound[0];
    let pos = first->Result_pos as int;
    assert(answers_one(first, jobs, done));
    let origin = choose|k: int| 0 <= k < done && (#[trigger] jobs[k]).answered_by(first);
    assert(jobs[origin].slot() == pos);
    assert forall|i: int| 0 <= i < then.outbound.len() implies answers_one(
        #[trigger] then.outbound[i],
        jobs,
        done,
    ) by {
        assert(then.outbound[i] == now.outbound[i + 1]);
    }
    assert forall|i: int| 0 <= i < before.len() implies (#[trigger] then.slots[i]) == before[i]
        || stores_one(then.slots[i], i, jobs, done) by {
        if i == pos {
            assert(jobs[origin].slot() == i);
        } else {
            assert(then.slots[i] == now.slots[i]);
        }
    }
    assert forall|k: int| 0 <= k < done implies then.in_hand(#[trigger] jobs[k])
        || then.answered(jobs[k]) || then.stored(jobs[k]) by {
        if now.in_hand(jobs[k]) {
            let v = choose|v: int|
                0 <= v < now.agents.len() && (#[trigger] now.agents[v]).holds(jobs[k]);
            assert(then.agents[v].holds(jobs[k]));
        } else if now.answered(jobs[k]) {
            let i = choose|i: int|
                0 <= i < now.outbound.len() && jobs[k].answered_by(#[trigger] now.outbound[i]);
            if i > 0 {
                assert(jobs[k].answered_by(then.outbound[i - 1]));
            } else {
                assert(then.stored(jobs[k]));
            }
        } else {
            assert(now.stored(jobs[k]));
            if jobs[k].slot() == pos {
                assert(k == origin);
            }
            assert(then.stored(jobs[k]));
        }
    }
}

/// Every step of a run keeps the invariant.
proof fn lemma_next_inv<T, J: FnOnce() -> T>(
    now: Moment<T, J>,
    then: Moment<T, J>,
    jobs: Seq<Message<T, J>>,
    size: nat,
    before: Seq<Option<T>>,
)
    requires
        batch(jobs, before.len()),
        inv(now, jobs, size, before),
        now.next(jobs, size, then),
    ensures
        inv(then, jobs, size, before),
{
    if now.submits(jobs, size, then) {
        lemma_submits_inv(now, then, jobs, size, before);
    } else if exists|w: int| #[trigger] now.takes(jobs, size, then, w) {
        let w = choose|w: int| #[trigger] now.takes(jobs, size, then, w);
        lemma_takes_inv(now, then, w, jobs, size, before);
    } else if exists|w: int, reply: Message<T, J>| #[trigger] now.publishes(then, w, reply) {
        let (w, reply) = choose|w: int, reply: Message<T, J>| #[trigger]
            now.publishes(then, w, reply);
        lemma_publishes_inv(now, then, w, reply, jobs, size, before);
    } else if exists|w: int| #[trigger] now.releases(then, w) {
        let w = choose|w: int| #[trigger] now.releases(then, w);
        lemma_releases_inv(now, then, w, jobs, size, before);
    } else {
        lemma_collects_inv(now, then, jobs, size, before);
    }
}

/// The invariant holds at every moment of a run.
proof fn lemma_run_inv<T, J: FnOnce() -> T>(
    run: Seq<Moment<T, J>>,
    jobs: Seq<Message<T, J>>,
    size: nat,
    before: Seq<Option<T>>,
    at: int,
)
    requires
        batch(jobs, before.len()),
        Moment::is_run(run, jobs, size, before),
        0 <= at < run.len(),
    ensures
        inv(run[at], jobs, size, before),
    decreases at,
{
    if at == 0 {
        lemma_start_inv(jobs, size, before);
    } else {
        lemma_run_inv(run, jobs, size, before, at - 1);
        assert(run[at - 1].next(jobs, size, run[at - 1 + 1]));
        lemma_next_inv(run[at - 1], run[at], jobs, size, before);
    }
}

/// Where the invariant holds and the outbound queue is closed, every message
/// has been taken and the collection is complete.
///
/// All workers have halted, so all termination signals have been taken, and
/// with them every job before them. No job is in a worker's hand or in the
/// outbound queue, so each is stored.
proof fn lemma_closed_inv_is_collected<T, J: FnOnce() -> T>(
    now: Moment<T, J>,
    jobs: Seq<Message<T, J>>,
    size: nat,
    before: Seq<Option<T>>,
)
    requires
        batch(jobs, before.len()),
        size >= 1,
        inv(now, jobs, size, before),
        now.closed(),
    ensures
        now.taken == jobs.len() + size,
        now.slots.len() == before.len(),
        forall|i: int|
            0 <= i < before.len() ==> slot_collected(jobs, i, before[i], #[trigger] now.slots[i]),
{
    let done = jobs_taken(jobs, now.taken);
    lemma_halted_all_or_none(now.agents);
    assert forall|w: int| 0 <= w < now.agents.len() implies (#[trigger] now.agents[w]).halted() by {
        assert(now.agents[w] is Stopped);
    }
    assert(done == jobs.len());
    assert forall|k: int| 0 <= k < jobs.len() implies now.stored(#[trigger] jobs[k]) by {
        if now.in_hand(jobs[k]) {
            let v = choose|v: int|
                0 <= v < now.agents.len() && (#[trigger] now.agents[v]).holds(jobs[k]);
            assert(now.agents[v] is Stopped);
        }
    }
    assert forall|i: int| 0 <= i < before.len() implies slot_collected(
        jobs,
        i,
        before[i],
        #[trigger] now.slots[i],
    ) by {
        if forall|k: int| 0 <= k < jobs.len() ==> (#[trigger] jobs[k]).slot() != i {
            if stores_one(now.slots[i], i, jobs, done) {
                let k = choose|k: int|
                    0 <= k < done && (#[trigger] jobs[k]).slot() == i
                        && (now.slots[i] matches Some(res) && jobs[k].yields(res));
                assert(jobs[k].slot() == i);
            }
        }
        assert forall|k: int| 0 <= k < jobs.len() && (#[trigger] jobs[k]).slot() == i implies (
        now.slots[i] matches Some(res) && jobs[k].yields(res)) by {
            assert(now.stored(jobs[k]));
        }
    }
}

// A run that ends over given slots.

/// The slots when the answers of the first `done` jobs have been stored and
/// `after` is what the collection leaves in the end.
spec fn slots_midway<T, J: FnOnce() -> T>(
    jobs: Seq<Message<T, J>>,
    before: Seq<Option<T>>,
    after: Seq<Option<T>>,
    done: int,
) -> Seq<Option<T>> {
    Seq::new(
        before.len(),
        |i: int|
            if exists|k: int| 0 <= k < done && (#[trigger] jobs[k]).slot() == i {
                after[i]
            } else {
                before[i]
            },
    )
}

/// The moment at which everything has been sent, the first `taken` messages
/// have been taken, the workers are as `agents` says, and nothing waits in
/// the outbound queue.
spec fn quiet<T, J: FnOnce() -> T>(
    jobs: Seq<Message<T, J>>,
    size: nat,
    taken: nat,
    agents: Seq<Agent<J>>,
    slots: Seq<Option<T>>,
) -> Moment<T, J> {
    Moment { sent: jobs.len() + size, taken, agents, outbound: Seq::empty(), slots }
}

/// `size` workers of which the first `stopped` have stopped and the others
/// are idle.
spec fn stopped_upto<J>(size: nat, stopped: int) -> Seq<Agent<J>> {
    Seq::new(size, |w: int| if w < stopped { Agent::Stopped } else { Agent::Idle })
}

/// A run stays a run when one more step is added to it.
proof fn lemma_run_extends<T, J: FnOnce() -> T>(
    run: Seq<Moment<T, J>>,
    then: Moment<T, J>,
    jobs: Seq<Message<T, J>>,
    size: nat,
    before: Seq<Option<T>>,
)
    requires
        Moment::is_run(run, jobs, size, before),
        run.last().next(jobs, size, then),
    ensures
        Moment::is_run(run.push(then), jobs, size, before),
        run.push(then).last() == then,
{
    let longer = run.push(then);
    assert(longer[0] == run[0]);
    assert forall|i: int| 0 <= i < longer.len() - 1 implies (#[trigger] longer[i]).next(
        jobs,
        size,
        longer[i + 1],
    ) by {
        if i < run.len() - 1 {
            assert(run[i].next(jobs, size, run[i + 1]));
            assert(longer[i] == run[i]);
            assert(longer[i + 1] == run[i + 1]);
        } else {
            assert(longer[i] == run.last());
            assert(longer[i + 1] == then);
        }
    }
}

/// A run in which the pool has sent the first `sent` messages and nothing
/// else has happened.
proof fn lemma_run_of_submits<T, J: FnOnce() -> T>(
    jobs: Seq<Message<T, J>>,
    size: nat,
    before: Seq<Option<T>>,
    sent: nat,
) -> (run: Seq<Moment<T, J>>)
    requires
        sent <= jobs.len() + size,
    ensures
        Moment::is_run(run, jobs, size, before),
        run.last() == (Moment { sent, ..Moment::<T, J>::start(size, before) }),
    decreases sent,
{
    if sent == 0 {
        seq![Moment::<T, J>::start(size, before)]
    } else {
        let shorter = lemma_run_of_submits(jobs, size, before, (sent - 1) as nat);
        let then = Moment { sent, ..Moment::<T, J>::start(size, before) };
        assert(shorter.last().submits(jobs, size, then));
        lemma_run_extends(shorter, then, jobs, size, before);
        shorter.push(then)
    }
}

/// The answer that `after` holds for the job `jobs[k]` is one that the job
/// may return, and storing it is what takes the slots from the first `k`
/// jobs to the first `k + 1`.
proof fn lemma_slots_midway_step<T, J: FnOnce() -> T>(
    jobs: Seq<Message<T, J>>,
    before: Seq<Option<T>>,
    after: Seq<Option<T>>,
    k: int,
)
    requires
        batch(jobs, before.len()),
        after.len() == before.len(),
        forall|i: int|
            0 <= i < before.len() ==> slot_collected(jobs, i, before[i], #[trigger] after[i]),
        0 <= k < jobs.len(),
    ensures
        after[jobs[k].slot()] matches Some(res) && jobs[k].yields(res),
        slots_midway(jobs, before, after, k).update(jobs[k].slot(), after[jobs[k].slot()])
            == slots_midway(jobs, before, after, k + 1),
{
    let pos = jobs[k].slot();
    let held = slots_midway(jobs, before, after, k);
    let stored = slots_midway(jobs, before, after, k + 1);
    assert(slot_collected(jobs, pos, before[pos], after[pos]));
    assert forall|i: int| 0 <= i < before.len() implies held.update(pos, after[pos])[i]
        == stored[i] by {
        if i == pos {
            assert(jobs[k].slot() == i);
        } else if exists|l: int| 0 <= l < k + 1 && (#[trigger] jobs[l]).slot() == i {
            let l = choose|l: int| 0 <= l < k + 1 && (#[trigger] jobs[l]).slot() == i;
            assert(l < k);
        } else if exists|l: int| 0 <= l < k && (#[trigger] jobs[l]).slot() == i {
            let l = choose|l: int| 0 <= l < k && (#[trigger] jobs[l]).slot() == i;
            assert(jobs[l].slot() == i);
        }
    }
    assert(held.update(pos, after[pos]) =~= stored);
}

/// From the moment at which the first `k` jobs have been stored, three steps
/// lead to the moment at which the next one has been too: the first worker
/// takes the job, publishes the answer that `after` holds for it, and the
/// pool stores that answer. The two moments in between are returned.
proof fn lemma_round_of_job<T, J: FnOnce() -> T>(
    jobs: Seq<Message<T, J>>,
    size: nat,
    before: Seq<Option<T>>,
    after: Seq<Option<T>>,
    k: int,
) -> (between: (Moment<T, J>, Moment<T, J>))
    requires
        batch(jobs, before.len()),
        size >= 1,
        after.len() == before.len(),
        forall|i: int|
            0 <= i < before.len() ==> slot_collected(jobs, i, before[i], #[trigger] after[i]),
        0 <= k < jobs.len(),
    ensures
        quiet(
            jobs,
            size,
            k as nat,
            stopped_upto(size, 0),
            slots_midway(jobs, before, after, k),
        ).next(jobs, size, between.0),
        between.0.next(jobs, size, between.1),
        between.1.next(
            jobs,
            size,
            quiet(
                jobs,
                size,
                (k + 1) as nat,
                stopped_upto(size, 0),
                slots_midway(jobs, before, after, k + 1),
            ),
        ),
{
    let idle = stopped_upto::<J>(size, 0);
    let held = slots_midway(jobs, before, after, k);
    let quiet_before = quiet(jobs, size, k as nat, idle, held);
    let quiet_after = quiet(
        jobs,
        size,
        (k + 1) as nat,
        idle,
        slots_midway(jobs, before, after, k + 1),
    );
    let pos = jobs[k]->Work_pos;
    let job = jobs[k]->Work_job;
    lemma_slots_midway_step(jobs, before, after, k);
    let res = after[pos as int]->0;
    let reply = Message::<T, J>::Result { pos, res };
    let busy = Moment {
        taken: (k + 1) as nat,
        agents: idle.update(0, Agent::Busy { pos, job }),
        ..quiet_before
    };
    let answered = Moment { agents: idle, outbound: seq![reply], ..busy };

    assert(quiet_before.takes(jobs, size, busy, 0)) by {
        assert(script(jobs, size)[k] == jobs[k]);
    }
    assert(busy.publishes(answered, 0, reply)) by {
        assert(jobs[k] == Message::<T, J>::Work { pos, job });
        assert(busy.agents.update(0, Agent::Idle) == idle);
        assert(busy.outbound.push(reply) == seq![reply]);
    }
    assert(answered.collects(quiet_after)) by {
        assert(answered.outbound.drop_first() == Seq::<Message<T, J>>::empty());
        assert(after[pos as int] == Some(res));
    }
    (busy, answered)
}

/// A run in which everything has been sent and the first worker has taken
/// the first `done` jobs one after the other, each answer being what `after`
/// holds in the job's slot and being stored before the next job is taken.
proof fn lemma_run_of_jobs<T, J: FnOnce() -> T>(
    jobs: Seq<Message<T, J>>,
    size: nat,
    before: Seq<Option<T>>,
    after: Seq<Option<T>>,
    done: nat,
) -> (run: Seq<Moment<T, J>>)
    requires
        batch(jobs, before.len()),
        size >= 1,
        after.len() == before.len(),
        forall|i: int|
            0 <= i < before.len() ==> slot_collected(jobs, i, before[i], #[trigger] after[i]),
        done <= jobs.len(),
    ensures
        Moment::is_run(run, jobs, size, before),
        run.last() == quiet(
            jobs,
            size,
            done,
            stopped_upto(size, 0),
            slots_midway(jobs, before, after, done as int),
        ),
    decreases done,
{
    if done == 0 {
        let run = lemma_run_of_submits(jobs, size, before, jobs.len() + size);
        assert(Moment::<T, J>::start(size, before).agents == stopped_upto::<J>(size, 0));
        assert(slots_midway(jobs, before, after, 0) == before);
        run
    } else {
        let shorter = lemma_run_of_jobs(jobs, size, before, after, (done - 1) as nat);
        let (busy, answered) = lemma_round_of_job(jobs, size, before, after, done - 1);
        let quiet_after = quiet(
            jobs,
            size,
            done,
            stopped_upto(size, 0),
            slots_midway(jobs, before, after, done as int),
        );
        lemma_run_extends(shorter, busy, jobs, size, before);
        lemma_run_extends(shorter.push(busy), answered, jobs, size, before);
        lemma_run_extends(shorter.push(busy).push(answered), quiet_after, jobs, size, before);
        shorter.push(busy).push(answered).push(quiet_after)
    }
}

/// A run in which every job has been answered and stored, as in
/// `lemma_run_of_jobs`, and the first `stopped` workers have then taken a
/// termination signal each and stopped.
proof fn lemma_run_of_stops<T, J: FnOnce() -> T>(
    jobs: Seq<Message<T, J>>,
    size: nat,
    before: Seq<Option<T>>,
    after: Seq<Option<T>>,
    stopped: nat,
) -> (run: Seq<Moment<T, J>>)
    requires
        batch(jobs, before.len()),
        size >= 1,
        after.len() == before.len(),
        forall|i: int|
            0 <= i < before.len() ==> slot_collected(jobs, i, before[i], #[trigger] after[i]),
        stopped <= size,
    ensures
        Moment::is_run(run, jobs, size, before),
        run.last() == quiet(
            jobs,
            size,
            jobs.len() + stopped,
            stopped_upto(size, stopped as int),
            slots_midway(jobs, before, after, jobs.len() as int),
        ),
    decreases stopped,
{
    let slots = slots_midway(jobs, before, after, jobs.len() as int);
    if stopped == 0 {
        lemma_run_of_jobs(jobs, size, before, after, jobs.len())
    } else {
        let w = stopped - 1;
        let shorter = lemma_run_of_stops(jobs, size, before, after, w as nat);
        let quiet_before = quiet(jobs, size, jobs.len() + w as nat, stopped_upto(size, w), slots);

        // the worker takes its signal
        let draining = Moment {
            taken: jobs.len() + stopped,
            agents: stopped_upto::<J>(size, w).update(w, Agent::Draining),
            ..quiet_before
        };
        assert(script(jobs, size)[jobs.len() + w] is Terminate);
        assert(quiet_before.takes(jobs, size, draining, w));
        lemma_run_extends(shorter, draining, jobs, size, before);

        // and gives up the outbound queue
        let quiet_after = quiet(
            jobs,
            size,
            jobs.len() + stopped,
            stopped_upto(size, stopped as int),
            slots,
        );
        assert(draining.agents.update(w, Agent::Stopped) == stopped_upto::<J>(
            size,
            stopped as int,
        ));
        assert(draining.releases(quiet_after, w));
        lemma_run_extends(shorter.push(draining), quiet_after, jobs, size, before);
        shorter.push(draining).push(quiet_after)
    }
}

} // verus!
