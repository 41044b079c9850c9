use concurrent_kit::thread_pool::{Received, ThreadPool, ThreadPoolInner, WorkerAction};

#[test]
fn join_waits_for_every_job() {
    let k = 8usize;
    let (mut pool, receiver) = ThreadPool::new(3);
    assert_eq!(pool.thread_count(), 3);
    assert!(pool.join());
    for i in 0..k {
        assert!(pool.accepts());
        assert_eq!(pool.execute(i), Ok(()));
        assert!(!pool.join());
    }
    assert_eq!(pool.queued_jobs(), k);
    let mut log = Vec::new();
    for i in 0..k {
        assert!(!pool.join());
        let job = receiver.try_recv().unwrap();
        assert_eq!(pool.worker_step(Received::Job), WorkerAction::Run);
        assert!(!pool.join());
        log.push(job);
        assert!(pool.job_done());
        assert_eq!(pool.join(), i + 1 == k);
    }
    assert_eq!(log, vec![0, 1, 2, 3, 4, 5, 6, 7]);
    assert!(receiver.try_recv().is_err());
    assert!(pool.join());
    assert!(pool.join());
}

#[test]
fn join_on_idle_pool_returns_at_once() {
    let (pool, _receiver) = ThreadPool::<u8>::new(1);
    assert!(pool.join());
    assert_eq!(pool.queued_jobs(), 0);
    assert_eq!(pool.running_jobs(), 0);
}

#[test]
fn job_in_the_queue_is_outstanding() {
    let (mut pool, receiver) = ThreadPool::new(1);
    assert_eq!(pool.execute("a"), Ok(()));
    assert_eq!(pool.execute("b"), Ok(()));
    assert_eq!(receiver.try_recv(), Ok("a"));
    assert_eq!(pool.worker_step(Received::Job), WorkerAction::Run);
    assert_eq!(pool.queued_jobs(), 1);
    assert_eq!(pool.running_jobs(), 1);
    assert!(pool.job_done());
    assert!(!pool.join());
    assert_eq!(receiver.try_recv(), Ok("b"));
    assert_eq!(pool.worker_step(Received::Job), WorkerAction::Run);
    assert!(pool.job_done());
    assert!(pool.join());
}

#[test]
fn workers_overlap() {
    let (mut pool, receiver) = ThreadPool::new(2);
    assert_eq!(pool.execute(1u8), Ok(()));
    assert_eq!(pool.execute(2u8), Ok(()));
    assert_eq!(receiver.len(), 2);
    assert_eq!(pool.worker_step(Received::Job), WorkerAction::Run);
    assert_eq!(pool.worker_step(Received::Job), WorkerAction::Run);
    assert!(!pool.job_done());
    assert!(!pool.join());
    assert!(pool.job_done());
    assert!(pool.join());
}

#[test]
fn closed_pool_takes_no_job() {
    let (mut pool, receiver) = ThreadPool::new(2);
    pool.close();
    assert!(!pool.accepts());
    assert_eq!(pool.execute(5u32), Err(5));
    assert_eq!(pool.queued_jobs(), 0);
    assert!(receiver.try_recv().is_err());
}

#[test]
fn job_comes_back_when_no_worker_is_left() {
    let (mut pool, receiver) = ThreadPool::new(2);
    drop(receiver);
    assert!(pool.accepts());
    assert_eq!(pool.execute(String::from("lost")), Err(String::from("lost")));
    assert_eq!(pool.queued_jobs(), 0);
    assert!(pool.join());
}

#[test]
fn closed_pool_drains_before_workers_exit() {
    let (mut pool, receiver) = ThreadPool::new(2);
    assert_eq!(pool.execute(1u32), Ok(()));
    assert!(!pool.drained());
    pool.close();
    assert!(!pool.drained());
    assert_eq!(receiver.recv(), Ok(1));
    assert_eq!(pool.worker_step(Received::Job), WorkerAction::Run);
    assert!(pool.drained());
    assert!(!pool.join());
    assert!(receiver.recv().is_err());
    assert_eq!(pool.worker_step(Received::Closed), WorkerAction::Exit);
    assert!(pool.job_done());
    assert!(receiver.recv().is_err());
    assert_eq!(pool.worker_step(Received::Closed), WorkerAction::Exit);
    assert!(pool.join());
}

#[test]
fn job_count_goes_up_and_down() {
    let mut inner = ThreadPoolInner::new();
    assert_eq!(inner.job_count(), 0);
    assert!(inner.wait_empty());
    inner.start_job();
    inner.start_job();
    assert_eq!(inner.job_count(), 2);
    assert!(!inner.wait_empty());
    assert!(!inner.finish_job());
    assert_eq!(inner.job_count(), 1);
    assert!(inner.finish_job());
    assert_eq!(inner.job_count(), 0);
    assert!(inner.wait_empty());
}
