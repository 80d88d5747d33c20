//! Running one batch through a pool, from the inputs to the ordered outputs.
use vstd::prelude::*;
use crate::message::Message;
use crate::laws::lemma_batch_in_order;
use crate::pool::ThreadPool;

verus! {

/// The result collection for a batch of `len` inputs before anything has
/// been collected: one empty slot per input. A batch without inputs is
/// refused with the error `"Vector is empty!"`.
pub fn empty_slots<T>(len: usize) -> (out: Result<Vec<Option<T>>, String>)
    ensures
        out is Err <==> len == 0,
        out matches Err(reason) ==> reason@ == "Vector is empty!"@,
        out matches Ok(slots) ==> slots.len() == len,
        out matches Ok(slots) ==> forall|i: int| 0 <= i < len ==> (#[trigger] slots[i]) is None,
{
    if len == 0 {
        return Err("Vector is empty!".to_string());
    }
    let mut slots: Vec<Option<T>> = Vec::new();
    for filled in 0..len
        invariant
            slots.len() == filled,
            forall|i: int| 0 <= i < filled ==> (#[trigger] slots[i]) is None,
    {
        slots.push(None);
    }
    Ok(slots)
}

/// Applies `f` to every element of `data` through a pool and returns the
/// answers in the order of the inputs.
///
/// An empty batch is refused with the error `"Vector is empty!"`, and no pool
/// is made for it. For any other batch the outcome is `Ok`: a vector as long
/// as the input whose slot `i` holds `Some` of what `f` returns for
/// `data[i]`. The pool is asked for as many workers as there are inputs, is
/// given one job per input under the input's index, and is stopped and
/// disposed of before the answers are handed back.
pub fn thread_manager<F, T>(data: Vec<T>, f: F) -> (out: Result<Vec<Option<T>>, String>) where
    F: FnOnce(T) -> T,
    F: 'static + Send + Copy,
    T: 'static + Send,

    requires
        forall|i: int| 0 <= i < data.len() ==> f.requires((#[trigger] data[i],)),
    ensures
        out is Err <==> data.len() == 0,
        out matches Err(reason) ==> reason@ == "Vector is empty!"@,
        out matches Ok(res) ==> res.len() == data.len(),
        out matches Ok(res) ==> forall|i: int|
            0 <= i < data.len()
                ==> ((#[trigger] res[i]) matches Some(value) && f.ensures((data[i],), value)),
{
    let ghost items = data@;
    let n = data.len();
    let mut res = match empty_slots(n) {
        Ok(slots) => slots,
        Err(reason) => {
            return Err(reason);
        },
    };
    let mut pool = ThreadPool::new(n);

    let mut pos: usize = 0;
    for item in it: data
        invariant
            pos == it.index(),
            it.seq() == items,
            items.len() == n,
            forall|i: int| 0 <= i < items.len() ==> f.requires((#[trigger] items[i],)),
            pool@.wf(),
            pool@.open(),
            pool@.inbound.len() == pos,
            forall|k: int|
                0 <= k < pos
                    ==> ((#[trigger] pool@.inbound[k]) matches Message::Work { pos: at, job }
                        && at == k
                        && (forall|value: T|
                            call_ensures(job, (), value) ==> f.ensures((items[k],), value))),
    {
        let job = move || -> (value: T)
            requires
                f.requires((item,)),
            ensures
                f.ensures((item,), value),
        {
            f(item)
        };
        pool.execute(pos, job);
        pos = pos + 1;
    }

    let ghost jobs = pool@.inbound;
    let ghost empty = res@;
    pool.result(&mut res);
    proof {
        assert forall|i: int| 0 <= i < n implies ((#[trigger] res[i]) matches Some(value)
            && f.ensures((items[i],), value)) by {
            assert(empty[i] is None);
            lemma_batch_in_order(jobs, i, empty[i], res[i]);
        }
    }
    pool.dispose();

    Ok(res)
}

} // verus!
