use threads_control::{Message, Worker, WorkerState};

#[test]
fn new_worker_runs_and_has_done_nothing() {
    let worker = Worker::new(3);
    assert_eq!(worker.id(), 3);
    assert_eq!(worker.state(), WorkerState::Running);
    assert!(!worker.has_worked());
    assert!(!worker.is_joined());
}

#[test]
fn work_is_answered_under_its_position() {
    let mut worker = Worker::new(0);
    let reply = worker.serve(Message::Work { pos: 7, job: || 6u32 * 7 });
    match reply {
        Some(Message::Result { pos, res }) => {
            assert_eq!(pos, 7);
            assert_eq!(res, 42);
        }
        _ => panic!("a job must be answered with a result"),
    }
    assert_eq!(worker.state(), WorkerState::Running);
    assert!(worker.has_worked());
}

#[test]
fn worker_keeps_serving_until_told_to_stop() {
    let mut worker = Worker::new(1);
    for pos in 0..4usize {
        let reply = worker.serve(Message::Work { pos, job: move || pos * 10 });
        match reply {
            Some(Message::Result { pos: at, res }) => {
                assert_eq!(at, pos);
                assert_eq!(res, pos * 10);
            }
            _ => panic!("a job must be answered with a result"),
        }
        assert_eq!(worker.state(), WorkerState::Running);
    }
}

#[test]
fn terminate_drains_then_stops() {
    let mut worker = Worker::new(2);
    let reply = worker.serve(Message::<u8, fn() -> u8>::Terminate);
    assert!(reply.is_none());
    assert_eq!(worker.state(), WorkerState::Draining);
    assert!(!worker.has_worked());
    worker.release();
    assert_eq!(worker.state(), WorkerState::Stopped);
}

#[test]
fn a_result_on_the_inbound_queue_ends_the_service() {
    let mut worker = Worker::new(0);
    let reply = worker.serve(Message::<u8, fn() -> u8>::Result { pos: 0, res: 1 });
    assert!(reply.is_none());
    assert_eq!(worker.state(), WorkerState::Draining);
}

#[test]
fn release_changes_nothing_unless_draining() {
    let mut worker = Worker::new(0);
    worker.release();
    assert_eq!(worker.state(), WorkerState::Running);
    worker.serve(Message::<u8, fn() -> u8>::Terminate);
    worker.release();
    worker.release();
    assert_eq!(worker.state(), WorkerState::Stopped);
}

#[test]
fn a_worker_is_joined_once() {
    let mut worker = Worker::new(4);
    worker.serve(Message::<u8, fn() -> u8>::Terminate);
    worker.release();
    assert!(!worker.is_joined());
    assert!(worker.join());
    assert!(worker.is_joined());
    assert!(!worker.join());
    assert!(worker.is_joined());
    assert_eq!(worker.state(), WorkerState::Stopped);
    assert_eq!(worker.id(), 4);
}
