//! The pool: the owner of a fixed row of workers and of the sending end of
//! the dispatch channel. Submission enqueues one entry per job; teardown
//! enqueues exactly one stop signal per worker and returns only once every
//! worker has exited. The accounting proved here is that every submitted job
//! is taken and invoked exactly once, in submission order.

use vstd::prelude::*;

use crate::dispatch::{jobs_of, lemma_dispatch_concat, lemma_dispatch_push, lemma_stops,
    lemma_no_stop_front_is_work, stop_count, stops, Channel, Entry};
use crate::worker::{faulted_count, lemma_count_push, lemma_count_update, lemma_none_running,
    lemma_running_count_le_len, running_count, states_of, Worker, WorkerState};

verus! {

/// What teardown leaves behind: the full log of invoked jobs, the retired
/// workers, and the stop-signal accounting — exactly one stop signal was
/// enqueued per worker, and each consumed one retired exactly one worker.
pub struct Teardown<J> {
    /// Every job a worker took and invoked over the pool's whole life, in
    /// dispatch order.
    pub executed: Vec<J>,
    /// The workers, every one of them exited: retired by a stop signal, or
    /// already dead of a faulted job.
    pub workers: Vec<Worker>,
    /// How many stop signals teardown enqueued: one per worker.
    pub stops_enqueued: usize,
    /// How many stop signals were consumed: one per worker that was still
    /// running when teardown began.
    pub stops_consumed: usize,
    /// How many workers had died of a faulted job. Teardown surfaces the
    /// faults instead of swallowing them.
    pub faulted: usize,
}

/// A fixed-size worker pool.
///
/// Jobs are opaque to the pool: it never looks inside one, it only carries
/// each from submission to the single worker that invokes it. The pool
/// records every invoked job, in the order the workers took them, so that
/// the exactly-once accounting is part of its state.
pub struct Pool<J> {
    channel: Channel<J>,
    workers: Vec<Worker>,
    executed: Vec<J>,
    submitted: Ghost<Seq<J>>,
}

impl<J> Pool<J> {
    /// The entries waiting in the dispatch channel, oldest first.
    pub closed spec fn pending(self) -> Seq<Entry<J>> {
        self.channel@
    }

    /// The states of the pool's workers, in registration order.
    pub closed spec fn worker_states(self) -> Seq<WorkerState> {
        states_of(self.workers@)
    }

    /// Every job submitted so far, in submission order.
    pub closed spec fn submitted_log(self) -> Seq<J> {
        self.submitted@
    }

    /// Every job a worker has taken and invoked so far, in dispatch order.
    pub closed spec fn executed_log(self) -> Seq<J> {
        self.executed@
    }

    /// How many workers the pool was built with.
    pub open spec fn size(self) -> nat {
        self.worker_states().len()
    }

    /// The pool's invariant while it is alive: at least one worker; no stop
    /// signal is pending before teardown; no worker has been retired before
    /// teardown; and every submitted job is either already invoked or still
    /// pending, never both and never neither.
    pub open spec fn wf(self) -> bool {
        &&& self.size() > 0
        &&& stop_count(self.pending()) == 0
        &&& forall|i: int|
            0 <= i < self.size() ==> !((#[trigger] self.worker_states()[i]) is Terminated)
        &&& self.submitted_log() == self.executed_log() + jobs_of(self.pending())
    }

    /// Build a pool of exactly `size` workers, all running, with an empty
    /// channel and empty logs. A pool of zero workers could never make
    /// progress, so `size == 0` is a configuration error the caller must
    /// rule out; `try_new` is the checked form.
    pub fn new(size: usize) -> (p: Pool<J>)
        requires
            size > 0,
        ensures
            p.wf(),
            p.size() == size,
            p.pending() == Seq::<Entry<J>>::empty(),
            p.submitted_log() == Seq::<J>::empty(),
            p.executed_log() == Seq::<J>::empty(),
            forall|i: int| 0 <= i < size ==> (#[trigger] p.worker_states()[i]) is Running,
    {
        let mut workers: Vec<Worker> = Vec::new();
        let mut i: usize = 0;
        while i < size
            invariant
                i <= size,
                workers@.len() == i,
                forall|k: int| 0 <= k < i ==> (#[trigger] states_of(workers@)[k]) is Running,
            decreases size - i,
        {
            let ghost prev = workers@;
            let w = Worker::new();
            workers.push(w);
            proof {
                assert forall|k: int| 0 <= k < i + 1 implies (#[trigger] states_of(
                    workers@,
                )[k]) is Running by {
                    if k < i {
                        assert(workers@[k] == prev[k]);
                        assert(states_of(prev)[k] is Running);
                    } else {
                        assert(workers@[k] == w);
                    }
                }
            }
            i = i + 1;
        }
        let p = Pool {
            channel: Channel::new(),
            workers,
            executed: Vec::new(),
            submitted: Ghost(Seq::empty()),
        };
        proof {
            assert(p.submitted_log() =~= p.executed_log() + jobs_of(p.pending()));
        }
        p
    }

    /// The checked form of `new`: a pool for any positive `size`, and never
    /// a zero-worker pool — `size == 0` is refused, not silently accepted.
    pub fn try_new(size: usize) -> (r: Option<Pool<J>>)
        ensures
            r is Some <==> size > 0,
            r matches Some(p) ==> p.wf() && p.size() == size && p.pending() == Seq::<
                Entry<J>,
            >::empty() && p.submitted_log() == Seq::<J>::empty() && p.executed_log() == Seq::<
                J,
            >::empty() && (forall|i: int|
                0 <= i < size ==> (#[trigger] p.worker_states()[i]) is Running),
    {
        if size == 0 {
            None
        } else {
            Some(Self::new(size))
        }
    }

    /// Submit one job: exactly one entry joins the back of the dispatch
    /// channel, and nothing else moves. The channel is unbounded, so
    /// submission succeeds whatever is already pending — more jobs than
    /// workers never stalls the submitter. Submission after teardown has
    /// begun cannot arise: teardown consumes the pool.
    pub fn execute(&mut self, job: J)
        requires
            old(self).wf(),
        ensures
            final(self).wf(),
            final(self).pending() == old(self).pending().push(Entry::Work(job)),
            final(self).submitted_log() == old(self).submitted_log().push(job),
            final(self).executed_log() == old(self).executed_log(),
            final(self).worker_states() == old(self).worker_states(),
    {
        self.channel.send(Entry::Work(job));
        proof {
            self.submitted@ = self.submitted@.push(job);
            lemma_dispatch_push(old(self).pending(), Entry::Work(job));
            assert(self.submitted_log() =~= self.executed_log() + jobs_of(self.pending()));
        }
    }

    /// One dispatch step: the running worker `w` wins the receiving end,
    /// takes the oldest pending entry — before teardown always a job — and
    /// invokes it. The job joins the invoked log exactly once; if its
    /// invocation faults, the fault is not contained and worker `w` is dead
    /// from here on, leaving the pool that much capacity short for good.
    pub fn dispatch(&mut self, w: usize, fault: bool)
        requires
            old(self).wf(),
            w < old(self).size(),
            old(self).worker_states()[w as int] is Running,
            old(self).pending().len() > 0,
        ensures
            final(self).wf(),
            final(self).size() == old(self).size(),
            final(self).pending() == old(self).pending().drop_first(),
            final(self).submitted_log() == old(self).submitted_log(),
            old(self).pending()[0] matches Entry::Work(j) && final(self).executed_log() == old(
                self,
            ).executed_log().push(j),
            final(self).worker_states() == (if fault {
                old(self).worker_states().update(w as int, WorkerState::Faulted)
            } else {
                old(self).worker_states()
            }),
    {
        proof {
            lemma_no_stop_front_is_work(old(self).pending());
        }
        let entry = match self.channel.receive() {
            Some(entry) => entry,
            None => {
                proof {
                    assert(false);
                }
                vstd::pervasive::unreached()
            },
        };
        let mut taker = self.workers[w];
        let job = match taker.on_entry(entry) {
            Some(job) => job,
            None => {
                proof {
                    assert(false);
                }
                vstd::pervasive::unreached()
            },
        };
        self.executed.push(job);
        if fault {
            taker.on_fault();
        }
        self.workers.set(w, taker);
        proof {
            if fault {
                assert(self.worker_states() =~= old(self).worker_states().update(
                    w as int,
                    WorkerState::Faulted,
                ));
            } else {
                assert(self.worker_states() =~= old(self).worker_states());
            }
            assert(old(self).pending() =~= seq![old(self).pending()[0]]
                + old(self).pending().drop_first());
            lemma_dispatch_concat(seq![old(self).pending()[0]], old(self).pending().drop_first());
            assert(seq![old(self).pending()[0]].drop_first() =~= Seq::<Entry<J>>::empty());
            assert(self.submitted_log() =~= self.executed_log() + jobs_of(self.pending()));
        }
    }

    /// Tear the pool down: enqueue exactly one stop signal per worker, then
    /// keep handing out entries until every worker has exited — the call
    /// does not return before that. Whatever was still pending is invoked
    /// first (the channel is first-in first-out, so every job precedes the
    /// stop signals), provided at least one worker is still alive to take
    /// it; a pool whose workers have all died can invoke nothing more. The
    /// stop signals sent to dead workers are never consumed, and the faults
    /// that killed those workers are surfaced in the result.
    pub fn shutdown(self) -> (t: Teardown<J>)
        requires
            self.wf(),
        ensures
            t.stops_enqueued == self.size(),
            t.stops_consumed == running_count(self.worker_states()),
            t.faulted == faulted_count(self.worker_states()),
            t.workers@.len() == self.size(),
            forall|i: int|
                0 <= i < self.size() ==> (#[trigger] t.workers@[i])@ == (if self.worker_states()[i]
                    is Running {
                    WorkerState::Terminated
                } else {
                    WorkerState::Faulted
                }),
            running_count(self.worker_states()) > 0 ==> t.executed@ == self.submitted_log(),
            running_count(self.worker_states()) == 0 ==> t.executed@ == self.executed_log(),
    {
        let ghost init = self;
        let Pool { mut channel, mut workers, mut executed, submitted: _ } = self;
        let size = workers.len();
        let counts = count_states(&workers);
        let mut running = counts.0;
        let faulted = counts.1;
        let ghost states0 = states_of(workers@);
        let ghost r0 = running_count(states0);
        let ghost pre = channel@;

        // One stop signal per worker, no more, no fewer.
        let mut i: usize = 0;
        while i < size
            invariant
                i <= size,
                channel@ == pre + stops::<J>(i as nat),
            decreases size - i,
        {
            channel.send(Entry::Stop);
            proof {
                assert(channel@ =~= pre + stops::<J>((i + 1) as nat));
            }
            i = i + 1;
        }
        let ghost q0 = channel@;
        proof {
            lemma_stops::<J>(size as nat);
            lemma_dispatch_concat(pre, stops::<J>(size as nat));
            lemma_running_count_le_len(states0);
            assert(channel@ =~= q0.subrange(0, q0.len() as int));
            assert(q0.take(0) =~= Seq::<Entry<J>>::empty());
            assert(executed@ =~= init.executed_log() + jobs_of(q0.take(0)));
        }

        // Hand out every remaining entry until no worker is left running.
        let mut stops_consumed: usize = 0;
        let ghost mut idx: int = 0;
        while running > 0
            invariant
                workers@.len() == size,
                0 <= idx <= q0.len(),
                channel@ == q0.subrange(idx, q0.len() as int),
                running == running_count(states_of(workers@)),
                stops_consumed == stop_count(q0.take(idx)),
                running + stop_count(q0.take(idx)) == r0,
                executed@ == init.executed_log() + jobs_of(q0.take(idx)),
                r0 == 0 ==> idx == 0,
                forall|k: int|
                    0 <= k < size && !(states0[k] is Running) ==> (#[trigger] states_of(
                        workers@,
                    )[k]) == states0[k],
                forall|k: int|
                    0 <= k < size && states0[k] is Running ==> ((#[trigger] states_of(
                        workers@,
                    )[k]) is Running || states_of(workers@)[k] is Terminated),
                r0 <= size,
                stop_count(q0) == size,
                jobs_of(q0) == jobs_of(pre),
                stop_count(pre) == 0,
                states0.len() == size,
            decreases q0.len() - idx,
        {
            proof {
                assert(q0 =~= q0.take(idx) + q0.subrange(idx, q0.len() as int));
                lemma_dispatch_concat(q0.take(idx), q0.subrange(idx, q0.len() as int));
                assert(stop_count(channel@) > 0);
            }
            let w = find_running(&workers);
            match channel.receive() {
                None => {
                    proof {
                        assert(false);
                    }
                },
                Some(entry) => {
                    let ghost prev_states = states_of(workers@);
                    let mut taker = workers[w];
                    match taker.on_entry(entry) {
                        Some(job) => {
                            executed.push(job);
                            workers.set(w, taker);
                            proof {
                                assert(states_of(workers@) =~= prev_states);
                            }
                        },
                        None => {
                            stops_consumed = stops_consumed + 1;
                            running = running - 1;
                            workers.set(w, taker);
                            proof {
                                assert(states_of(workers@) =~= prev_states.update(
                                    w as int,
                                    WorkerState::Terminated,
                                ));
                                lemma_count_update(prev_states, w as int, WorkerState::Terminated);
                            }
                        },
                    }
                    proof {
                        assert(entry == q0[idx]);
                        assert(q0.take(idx + 1) =~= q0.take(idx).push(q0[idx]));
                        lemma_dispatch_push(q0.take(idx), q0[idx]);
                        idx = idx + 1;
                        assert(channel@ =~= q0.subrange(idx, q0.len() as int));
                    }
                },
            }
        }

        proof {
            lemma_none_running(states_of(workers@));
            assert(states0 == init.worker_states());
            assert forall|k: int|
                0 <= k < size implies (#[trigger] workers@[k])@ == (if states0[k] is Running {
                WorkerState::Terminated
            } else {
                WorkerState::Faulted
            }) by {
                assert(states_of(workers@)[k] == workers@[k]@);
                assert(!(states_of(workers@)[k] is Running));
                if !(states0[k] is Running) {
                    assert(states_of(workers@)[k] == states0[k]);
                    assert(!(init.worker_states()[k] is Terminated));
                }
            }
            assert(stop_count(q0.take(idx)) == r0);
            if r0 > 0 {
                // Every stop signal stands behind every job, so consuming a
                // stop signal means every job was already handed out.
                assert(idx >= pre.len()) by {
                    if idx < pre.len() {
                        assert(q0.take(idx) =~= pre.take(idx));
                        assert(pre =~= pre.take(idx) + pre.subrange(idx, pre.len() as int));
                        lemma_dispatch_concat(pre.take(idx), pre.subrange(idx, pre.len() as int));
                    }
                }
                assert(q0.subrange(idx, q0.len() as int) =~= stops::<J>(
                    (q0.len() - idx) as nat,
                ));
                lemma_stops::<J>((q0.len() - idx) as nat);
                assert(q0 =~= q0.take(idx) + q0.subrange(idx, q0.len() as int));
                lemma_dispatch_concat(q0.take(idx), q0.subrange(idx, q0.len() as int));
                assert(jobs_of(q0.take(idx)) =~= jobs_of(pre));
                assert(executed@ =~= init.submitted_log());
            } else {
                assert(executed@ =~= init.executed_log());
            }
        }
        Teardown { executed, workers, stops_enqueued: size, stops_consumed, faulted }
    }

    /// How many workers the pool owns.
    pub fn worker_count(&self) -> (n: usize)
        ensures
            n == self.size(),
    {
        self.workers.len()
    }

    /// How many entries wait in the dispatch channel.
    pub fn pending_count(&self) -> (n: usize)
        ensures
            n == self.pending().len(),
    {
        self.channel.len()
    }

    /// The jobs invoked so far, in dispatch order.
    pub fn executed_jobs(&self) -> (r: &Vec<J>)
        ensures
            r@ == self.executed_log(),
    {
        &self.executed
    }

    /// Where worker `w` stands.
    pub fn worker_state(&self, w: usize) -> (s: WorkerState)
        requires
            w < self.size(),
        ensures
            s == self.worker_states()[w as int],
    {
        self.workers[w].state()
    }
}

/// Invocation preserves submission order: at every point in a pool's life
/// the invoked jobs are exactly the oldest submitted jobs, in submission
/// order. No job is ever invoked ahead of one submitted before it, so with a
/// single worker — one consumer — jobs run strictly in submission order.
pub proof fn lemma_executed_prefix_of_submitted<J>(p: Pool<J>)
    requires
        p.wf(),
    ensures
        p.executed_log().len() <= p.submitted_log().len(),
        p.executed_log() == p.submitted_log().take(p.executed_log().len() as int),
{
    assert(p.submitted_log().take(p.executed_log().len() as int) =~= p.executed_log());
}

/// Count the running and the faulted workers in one pass.
fn count_states(workers: &Vec<Worker>) -> (counts: (usize, usize))
    ensures
        counts.0 == running_count(states_of(workers@)),
        counts.1 == faulted_count(states_of(workers@)),
{
    let ghost all = states_of(workers@);
    let n = workers.len();
    let mut running: usize = 0;
    let mut faulted: usize = 0;
    let mut i: usize = 0;
    while i < n
        invariant
            i <= n,
            n == workers@.len(),
            running == running_count(all.take(i as int)),
            faulted == faulted_count(all.take(i as int)),
            running <= i,
            faulted <= i,
            all == states_of(workers@),
        decreases n - i,
    {
        proof {
            assert(all.take(i + 1) =~= all.take(i as int).push(all[i as int]));
            lemma_count_push(all.take(i as int), all[i as int]);
        }
        match workers[i].state() {
            WorkerState::Running => {
                running = running + 1;
            },
            WorkerState::Faulted => {
                faulted = faulted + 1;
            },
            WorkerState::Terminated => {},
        }
        i = i + 1;
    }
    proof {
        assert(all.take(n as int) =~= all);
    }
    (running, faulted)
}

/// Pick some worker that is still running; one exists.
fn find_running(workers: &Vec<Worker>) -> (w: usize)
    requires
        running_count(states_of(workers@)) > 0,
    ensures
        w < workers@.len(),
        states_of(workers@)[w as int] is Running,
{
    proof {
        lemma_none_running(states_of(workers@));
        assert(exists|j: int|
            0 <= j < workers@.len() && (#[trigger] states_of(workers@)[j]) is Running);
    }
    let ghost target = choose|j: int|
        0 <= j < workers@.len() && (#[trigger] states_of(workers@)[j]) is Running;
    let n = workers.len();
    let mut i: usize = 0;
    while i < n
        invariant
            0 <= target < n,
            i <= target,
            n == workers@.len(),
            states_of(workers@)[target] is Running,
        decreases n - i,
    {
        match workers[i].state() {
            WorkerState::Running => {
                return i;
            },
            _ => {},
        }
        proof {
            assert(i != target);
        }
        i = i + 1;
    }
    proof {
        assert(false);
    }
    vstd::pervasive::unreached()
}

} // verus!
