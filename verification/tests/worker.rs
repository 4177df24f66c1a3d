use workpool::dispatch::Entry;
use workpool::worker::{Worker, WorkerState};

#[test]
fn a_job_entry_is_handed_back_and_the_worker_keeps_looping() {
    let mut w = Worker::new();
    assert_eq!(w.state(), WorkerState::Running);
    let r = w.on_entry(Entry::Work(42u64));
    assert_eq!(r, Some(42));
    assert_eq!(w.state(), WorkerState::Running);
}

#[test]
fn a_stop_signal_retires_the_worker() {
    let mut w = Worker::new();
    let r = w.on_entry::<u64>(Entry::Stop);
    assert_eq!(r, None);
    assert_eq!(w.state(), WorkerState::Terminated);
}

#[test]
fn a_faulting_job_kills_its_worker() {
    let mut w = Worker::new();
    let r = w.on_entry(Entry::Work(7u64));
    assert_eq!(r, Some(7));
    w.on_fault();
    assert_eq!(w.state(), WorkerState::Faulted);
}
