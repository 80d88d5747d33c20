//! What holds of every pool, proved over the views of the pool and of its
//! workers.
use vstd::prelude::*;
use crate::message::Message;
use crate::pool::{slot_collected, PoolView};
use crate::worker::{WorkerState, WorkerView};

verus! {

/// A batch whose jobs were submitted under their own indices comes back in
/// order: after the collection the slot `slot` holds an answer of the job
/// `jobs[slot]`, whatever it held before.
pub proof fn lemma_batch_in_order<T, J: FnOnce() -> T>(
    jobs: Seq<Message<T, J>>,
    slot: int,
    before: Option<T>,
    after: Option<T>,
)
    requires
        0 <= slot < jobs.len(),
        forall|k: int| 0 <= k < jobs.len() ==> (#[trigger] jobs[k]) is Work && jobs[k].slot() == k,
        slot_collected(jobs, slot, before, after),
    ensures
        after matches Some(res) && jobs[slot].yields(res),
{
    assert(jobs[slot].slot() == slot);
}

/// No worker acts on a second termination signal or is waited for twice.
///
/// A worker whose history agrees with its state has acted on at most one
/// signal and been waited for at most once, and every step that a worker can
/// take keeps the agreement: running a job or acting on the signal while it
/// runs, giving up its end of the outbound queue, and being joined once it
/// has stopped.
pub proof fn lemma_worker_stops_and_joins_once(worker: WorkerView)
    requires
        worker.wf(),
    ensures
        worker.stops <= 1,
        worker.joins <= 1,
        WorkerView::fresh(worker.id).wf(),
        worker.state == WorkerState::Running ==> worker.work().wf() && worker.drain().wf(),
        worker.release().wf(),
        worker.state == WorkerState::Stopped ==> worker.join().wf(),
{
}

/// A worker at the end of its service has acted on exactly one termination
/// signal, and once it has been joined it has been waited for exactly once.
pub proof fn lemma_worker_stopped_and_joined(worker: WorkerView, worked: bool)
    requires
        worker.wf(),
        worker.state != WorkerState::Draining,
    ensures
        worker.stop(worked).wf(),
        worker.stop(worked).state == WorkerState::Stopped,
        worker.stop(worked).stops == 1,
        worker.stop(worked).joins == worker.joins,
        worker.stop(worked).join().wf(),
        worker.stop(worked).join().stops == 1,
        worker.stop(worked).join().joins == 1,
{
}

/// Stopping a pool shuts it down and keeps it well formed. It keeps the
/// number of workers, and every worker has then acted on exactly one
/// termination signal.
pub proof fn lemma_stop_shuts_down<T, J: FnOnce() -> T>(pool: PoolView<T, J>)
    requires
        pool.wf(),
    ensures
        pool.stop().wf(),
        pool.stop().shut_down(),
        pool.stop().workers.len() == pool.workers.len(),
        forall|w: int|
            0 <= w < pool.workers.len() ==> (#[trigger] pool.stop().workers[w]).stops == 1,
{
    let stopped = pool.stop();
    assert forall|w: int| 0 <= w < pool.workers.len() implies {
        &&& (#[trigger] stopped.workers[w]).wf()
        &&& stopped.workers[w].id == w
        &&& stopped.workers[w].state == WorkerState::Stopped
        &&& stopped.workers[w].stops == 1
        &&& stopped.workers[w].joined == pool.workers[w].joined
    } by {
        lemma_worker_stopped_and_joined(pool.workers[w], w < pool.inbound.len());
    }
    if pool.disposed() {
        assert(stopped.disposed());
    }
}

/// A pool that is shut down is not stopped a second time: stopping it changes
/// nothing. So stopping twice is stopping once.
pub proof fn lemma_stop_is_idempotent<T, J: FnOnce() -> T>(pool: PoolView<T, J>)
    requires
        pool.wf(),
    ensures
        pool.shut_down() ==> pool.stop() == pool,
        pool.stop().stop() == pool.stop(),
{
    lemma_stop_shuts_down(pool);
    if pool.shut_down() {
        assert(pool.stop().workers =~= pool.workers);
        assert(pool.stop().inbound =~= pool.inbound);
    }
    let stopped = pool.stop();
    assert(stopped.stop().workers =~= stopped.workers);
    assert(stopped.stop().inbound =~= stopped.inbound);
}

/// Disposal leaves no worker running or unjoined, and it joins every worker
/// exactly once: after it each worker has stopped on one termination signal
/// and has been waited for one time, whether or not the pool had been stopped
/// or disposed of before.
pub proof fn lemma_dispose_joins_every_worker_once<T, J: FnOnce() -> T>(pool: PoolView<T, J>)
    requires
        pool.wf(),
    ensures
        pool.stop().join().wf(),
        pool.stop().join().shut_down(),
        pool.stop().join().disposed(),
        pool.stop().join().workers.len() == pool.workers.len(),
        forall|w: int|
            0 <= w < pool.workers.len() ==> {
                &&& (#[trigger] pool.stop().join().workers[w]).state == WorkerState::Stopped
                &&& pool.stop().join().workers[w].stops == 1
                &&& pool.stop().join().workers[w].joins == 1
            },
{
    lemma_stop_shuts_down(pool);
    let stopped = pool.stop();
    let joined = stopped.join();
    assert forall|w: int| 0 <= w < pool.workers.len() implies {
        &&& (#[trigger] joined.workers[w]).wf()
        &&& joined.workers[w].id == w
        &&& joined.workers[w].state == WorkerState::Stopped
        &&& joined.workers[w].stops == 1
        &&& joined.workers[w].joins == 1
        &&& joined.workers[w].joined
    } by {
        lemma_worker_stopped_and_joined(stopped.workers[w], false);
    }
}

/// Collecting and then disposing stops no worker twice and joins no worker
/// twice. The disposal that follows a collection stops nothing, and a second
/// disposal changes nothing at all: every worker has then acted on exactly
/// one termination signal and been waited for exactly once.
pub proof fn lemma_collect_then_dispose<T, J: FnOnce() -> T>(pool: PoolView<T, J>)
    requires
        pool.wf(),
        pool.open(),
    ensures
        ({
            let collected = pool.stop();
            let disposed = collected.stop().join();
            let again = disposed.stop().join();
            &&& collected.stop() == collected
            &&& again == disposed
            &&& forall|w: int|
                    0 <= w < pool.workers.len() ==> {
                        &&& (#[trigger] collected.workers[w]).stops == 1
                        &&& collected.workers[w].joins == 0
                        &&& disposed.workers[w].stops == 1
                        &&& disposed.workers[w].joins == 1
                    }
        }),
{
    let collected = pool.stop();
    lemma_stop_shuts_down(pool);
    lemma_stop_is_idempotent(pool);
    lemma_dispose_joins_every_worker_once(collected);
    let disposed = collected.stop().join();
    lemma_stop_is_idempotent(disposed);
    assert(disposed.join().workers =~= disposed.workers);
    assert forall|w: int| 0 <= w < pool.workers.len() implies {
        &&& (#[trigger] collected.workers[w]).stops == 1
        &&& collected.workers[w].joins == 0
        &&& disposed.workers[w].stops == 1
        &&& disposed.workers[w].joins == 1
    } by {
        assert(pool.workers[w] == WorkerView::fresh(w as nat));
        assert(disposed.workers[w] == collected.workers[w].join());
    }
}

} // verus!
