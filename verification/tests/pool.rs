use workpool::pool::Pool;
use workpool::worker::WorkerState;

#[test]
fn new_creates_exactly_size_workers() {
    for size in [1usize, 4, 64] {
        let p = Pool::<u64>::new(size);
        assert_eq!(p.worker_count(), size);
        for w in 0..size {
            assert_eq!(p.worker_state(w), WorkerState::Running);
        }
    }
}

#[test]
fn try_new_accepts_every_positive_size() {
    for size in [1usize, 2, 7, 64] {
        let p = Pool::<u64>::try_new(size).expect("a positive size must be accepted");
        assert_eq!(p.worker_count(), size);
    }
}

#[test]
fn try_new_refuses_zero_workers() {
    assert!(Pool::<u64>::try_new(0).is_none());
}

#[test]
fn every_job_executed_exactly_once() {
    for size in [1usize, 4, 64] {
        let mut p = Pool::<u64>::new(size);
        for j in 0..1000u64 {
            p.execute(j);
        }
        let t = p.shutdown();
        assert_eq!(t.executed.len(), 1000);
        for (i, j) in t.executed.iter().enumerate() {
            assert_eq!(*j, i as u64);
        }
    }
}

#[test]
fn submitting_more_jobs_than_workers_never_stalls() {
    let mut p = Pool::<u64>::new(2);
    for j in 0..10u64 {
        p.execute(j);
        assert_eq!(p.pending_count() as u64, j + 1);
    }
    let t = p.shutdown();
    assert_eq!(t.executed, (0..10u64).collect::<Vec<u64>>());
}

#[test]
fn teardown_returns_only_with_every_worker_exited() {
    let mut p = Pool::<u64>::new(4);
    p.execute(11);
    let t = p.shutdown();
    assert_eq!(t.workers.len(), 4);
    for w in &t.workers {
        assert_eq!(w.state(), WorkerState::Terminated);
    }
}

#[test]
fn teardown_enqueues_one_stop_per_worker() {
    for size in [1usize, 3, 8] {
        let mut p = Pool::<u64>::new(size);
        p.execute(5);
        p.execute(6);
        let t = p.shutdown();
        assert_eq!(t.stops_enqueued, size);
        assert_eq!(t.stops_consumed, size);
        assert_eq!(t.faulted, 0);
    }
}

#[test]
fn single_worker_runs_jobs_in_submission_order() {
    let mut p = Pool::<u64>::new(1);
    p.execute(7);
    p.execute(9);
    p.dispatch(0, false);
    assert_eq!(p.executed_jobs(), &vec![7u64]);
    p.dispatch(0, false);
    assert_eq!(p.executed_jobs(), &vec![7u64, 9]);
    let t = p.shutdown();
    assert_eq!(t.executed, vec![7u64, 9]);
}

#[test]
fn dispatch_order_follows_submission_order_interleaved() {
    let mut p = Pool::<u64>::new(3);
    p.execute(1);
    p.dispatch(2, false);
    p.execute(2);
    p.execute(3);
    p.dispatch(0, false);
    let t = p.shutdown();
    assert_eq!(t.executed, vec![1u64, 2, 3]);
}

#[test]
fn faulted_job_surfaces_at_teardown() {
    let mut p = Pool::<u64>::new(2);
    p.execute(5);
    p.execute(6);
    p.dispatch(1, true);
    assert_eq!(p.worker_state(1), WorkerState::Faulted);
    let t = p.shutdown();
    assert_eq!(t.faulted, 1);
    assert_eq!(t.workers[0].state(), WorkerState::Terminated);
    assert_eq!(t.workers[1].state(), WorkerState::Faulted);
    // the faulting job was still invoked exactly once, and the survivor
    // drained the rest
    assert_eq!(t.executed, vec![5u64, 6]);
    // the stop signal aimed at the dead worker is never consumed
    assert_eq!(t.stops_enqueued, 2);
    assert_eq!(t.stops_consumed, 1);
}

#[test]
fn pool_with_every_worker_dead_invokes_nothing_more() {
    let mut p = Pool::<u64>::new(1);
    p.execute(1);
    p.execute(2);
    p.dispatch(0, true);
    let t = p.shutdown();
    // the one worker died on the first job: the second is stranded, the
    // stop signal is never consumed, and the fault is still reported
    assert_eq!(t.executed, vec![1u64]);
    assert_eq!(t.stops_enqueued, 1);
    assert_eq!(t.stops_consumed, 0);
    assert_eq!(t.faulted, 1);
}
