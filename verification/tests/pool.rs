use std::cell::Cell;
use std::rc::Rc;
use threads_control::{store, Message, ThreadPool, WorkerState, MAX_THREADS};

type Job = Box<dyn FnOnce() -> String>;

fn upper(text: String) -> Job {
    Box::new(move || text.to_uppercase())
}

#[test]
fn worker_count_is_the_desired_size_capped() {
    assert_eq!(MAX_THREADS, 5);
    assert_eq!(ThreadPool::<u8, fn() -> u8>::threads_determine_qt(1), 1);
    assert_eq!(ThreadPool::<u8, fn() -> u8>::threads_determine_qt(2), 2);
    assert_eq!(ThreadPool::<u8, fn() -> u8>::threads_determine_qt(4), 4);
    assert_eq!(ThreadPool::<u8, fn() -> u8>::threads_determine_qt(5), 5);
    assert_eq!(ThreadPool::<u8, fn() -> u8>::threads_determine_qt(6), 5);
    assert_eq!(ThreadPool::<u8, fn() -> u8>::threads_determine_qt(1000), 5);
    assert_eq!(ThreadPool::<u8, fn() -> u8>::threads_determine_qt(usize::MAX), 5);
}

#[test]
fn new_pool_is_open_with_fresh_workers() {
    for desired in 1usize..=9 {
        let pool: ThreadPool<String, Job> = ThreadPool::new(desired);
        let expected = if desired < 5 { desired } else { 5 };
        assert_eq!(pool.worker_count(), expected);
        assert!(pool.worker_count() >= 1);
        assert!(pool.is_open());
        assert_eq!(pool.queued(), 0);
        for w in 0..pool.worker_count() {
            assert_eq!(pool.worker(w).id(), w);
            assert_eq!(pool.worker(w).state(), WorkerState::Running);
            assert!(!pool.worker(w).has_worked());
            assert!(!pool.worker(w).is_joined());
        }
    }
}

#[test]
fn execute_queues_without_running() {
    let mut pool: ThreadPool<String, Job> = ThreadPool::new(2);
    pool.execute(0, upper("a".to_string()));
    pool.execute(1, upper("b".to_string()));
    pool.execute(2, upper("c".to_string()));
    assert_eq!(pool.queued(), 3);
    assert!(pool.is_open());
    assert_eq!(pool.worker_count(), 2);
    assert!(!pool.worker(0).has_worked());
    assert!(!pool.worker(1).has_worked());
}

#[test]
fn five_workers_uppercase_eighteen_strings() {
    let mut pool: ThreadPool<String, Job> = ThreadPool::new(5);
    let mut out: Vec<Option<String>> = Vec::new();
    for i in 1..=18 {
        pool.execute(i - 1, upper(format!("test {}", i)));
        out.push(None);
    }
    pool.result(&mut out);
    assert_eq!(out.len(), 18);
    for i in 1..=18 {
        assert_eq!(out[i - 1], Some(format!("TEST {}", i)));
    }
    assert!(!pool.is_open());
    assert_eq!(pool.queued(), 0);
    for w in 0..5 {
        assert_eq!(pool.worker(w).state(), WorkerState::Stopped);
        assert!(pool.worker(w).has_worked());
    }
}

#[test]
fn more_workers_than_jobs() {
    let mut pool: ThreadPool<String, Job> = ThreadPool::new(10);
    assert_eq!(pool.worker_count(), 5);
    let mut out: Vec<Option<String>> = vec![None, None, None];
    pool.execute(0, upper("one".to_string()));
    pool.execute(1, upper("two".to_string()));
    pool.execute(2, upper("three".to_string()));
    pool.result(&mut out);
    assert_eq!(
        out,
        vec![Some("ONE".to_string()), Some("TWO".to_string()), Some("THREE".to_string())]
    );
    let mut busy = 0;
    for w in 0..pool.worker_count() {
        assert_eq!(pool.worker(w).state(), WorkerState::Stopped);
        assert_eq!(pool.worker(w).has_worked(), w < 3);
        if pool.worker(w).has_worked() {
            busy += 1;
        }
    }
    assert_eq!(busy, 3);
}

#[test]
fn output_length_does_not_depend_on_worker_count() {
    for desired in 1usize..=8 {
        let mut pool: ThreadPool<String, Job> = ThreadPool::new(desired);
        let mut out: Vec<Option<String>> = Vec::new();
        for i in 0..7 {
            pool.execute(i, upper(format!("job {}", i)));
            out.push(None);
        }
        pool.result(&mut out);
        assert_eq!(out.len(), 7);
        for i in 0..7 {
            assert_eq!(out[i], Some(format!("JOB {}", i)));
        }
    }
}

#[test]
fn positions_decide_the_slots_not_the_order_of_submission() {
    let mut pool: ThreadPool<String, Job> = ThreadPool::new(3);
    let mut out: Vec<Option<String>> = vec![None, None, None, None];
    pool.execute(3, upper("d".to_string()));
    pool.execute(0, upper("a".to_string()));
    pool.execute(2, upper("c".to_string()));
    pool.execute(1, upper("b".to_string()));
    pool.result(&mut out);
    assert_eq!(
        out,
        vec![
            Some("A".to_string()),
            Some("B".to_string()),
            Some("C".to_string()),
            Some("D".to_string())
        ]
    );
}

#[test]
fn slots_without_a_job_keep_what_they_held() {
    let mut pool: ThreadPool<String, Job> = ThreadPool::new(2);
    let mut out: Vec<Option<String>> = vec![None, None, Some("kept".to_string()), None];
    pool.execute(1, upper("only".to_string()));
    pool.result(&mut out);
    assert_eq!(out, vec![None, Some("ONLY".to_string()), Some("kept".to_string()), None]);
}

#[test]
fn the_last_job_for_a_position_wins() {
    let mut pool: ThreadPool<String, Job> = ThreadPool::new(4);
    let mut out: Vec<Option<String>> = vec![None, None];
    pool.execute(1, upper("first".to_string()));
    pool.execute(0, upper("zero".to_string()));
    pool.execute(1, upper("second".to_string()));
    pool.result(&mut out);
    assert_eq!(out, vec![Some("ZERO".to_string()), Some("SECOND".to_string())]);
}

#[test]
fn result_without_jobs_only_stops_the_workers() {
    let mut pool: ThreadPool<String, Job> = ThreadPool::new(3);
    let mut out: Vec<Option<String>> = vec![None, Some("x".to_string())];
    pool.result(&mut out);
    assert_eq!(out, vec![None, Some("x".to_string())]);
    assert!(!pool.is_open());
    for w in 0..3 {
        assert_eq!(pool.worker(w).state(), WorkerState::Stopped);
        assert!(!pool.worker(w).has_worked());
    }
}

#[test]
fn dispose_joins_every_worker_once() {
    let mut pool: ThreadPool<String, Job> = ThreadPool::new(5);
    let mut out: Vec<Option<String>> = vec![None];
    pool.execute(0, upper("x".to_string()));
    pool.result(&mut out);
    for w in 0..5 {
        assert!(!pool.worker(w).is_joined());
    }
    assert_eq!(pool.dispose(), 5);
    for w in 0..5 {
        assert!(pool.worker(w).is_joined());
        assert_eq!(pool.worker(w).state(), WorkerState::Stopped);
    }
    assert_eq!(pool.dispose(), 0);
    assert_eq!(pool.dispose(), 0);
    for w in 0..5 {
        assert!(pool.worker(w).is_joined());
        assert_eq!(pool.worker(w).state(), WorkerState::Stopped);
        assert_eq!(pool.worker(w).has_worked(), w < 1);
    }
    assert_eq!(out, vec![Some("X".to_string())]);
}

#[test]
fn dispose_without_collecting_stops_and_joins() {
    let mut pool: ThreadPool<String, Job> = ThreadPool::new(3);
    pool.execute(0, upper("a".to_string()));
    pool.execute(1, upper("b".to_string()));
    assert!(pool.is_open());
    assert_eq!(pool.dispose(), 3);
    assert!(!pool.is_open());
    assert_eq!(pool.queued(), 0);
    for w in 0..3 {
        assert_eq!(pool.worker(w).state(), WorkerState::Stopped);
        assert!(pool.worker(w).is_joined());
        assert_eq!(pool.worker(w).has_worked(), w < 2);
    }
    assert_eq!(pool.dispose(), 0);
}

#[test]
fn dispose_of_an_unused_pool() {
    let mut pool: ThreadPool<u8, fn() -> u8> = ThreadPool::new(1);
    assert_eq!(pool.dispose(), 1);
    assert_eq!(pool.worker(0).state(), WorkerState::Stopped);
    assert!(!pool.worker(0).has_worked());
    assert!(pool.worker(0).is_joined());
}

#[test]
fn every_job_runs_exactly_once() {
    let runs = Rc::new(Cell::new(0u32));
    let mut pool = ThreadPool::new(4);
    let mut out: Vec<Option<u32>> = Vec::new();
    for i in 0..9usize {
        let runs = Rc::clone(&runs);
        pool.execute(i, move || {
            runs.set(runs.get() + 1);
            runs.get()
        });
        out.push(None);
    }
    assert_eq!(runs.get(), 0);
    pool.result(&mut out);
    assert_eq!(runs.get(), 9);
    for i in 0..9usize {
        assert_eq!(out[i], Some(i as u32 + 1));
    }
    pool.dispose();
    assert_eq!(runs.get(), 9);
}

#[test]
fn store_writes_a_result_into_its_slot() {
    let mut out: Vec<Option<u32>> = vec![None, Some(1), None];
    let more = store(&mut out, Message::<u32, fn() -> u32>::Result { pos: 2, res: 9 });
    assert!(more);
    assert_eq!(out, vec![None, Some(1), Some(9)]);
    let more = store(&mut out, Message::<u32, fn() -> u32>::Result { pos: 1, res: 5 });
    assert!(more);
    assert_eq!(out, vec![None, Some(5), Some(9)]);
}

#[test]
fn store_stops_on_anything_but_a_result() {
    let mut out: Vec<Option<u32>> = vec![None, Some(1)];
    assert!(!store(&mut out, Message::<u32, fn() -> u32>::Terminate));
    assert_eq!(out, vec![None, Some(1)]);
    assert!(!store(&mut out, Message::Work { pos: 0, job: || 7u32 }));
    assert_eq!(out, vec![None, Some(1)]);
}
