//! The worker state machine: a worker runs a loop of taking one dispatch
//! entry and acting on it, until a stop signal retires it. A job whose
//! invocation raises an unrecoverable fault takes its worker down with it —
//! faults are not isolated, by design.

use vstd::prelude::*;

use crate::dispatch::Entry;

verus! {

/// Where a worker stands in its life: looping for entries, retired normally
/// by a stop signal, or dead because a job it invoked faulted.
#[derive(Clone, Copy, Debug, PartialEq, Eq, Structural)]
pub enum WorkerState {
    Running,
    Terminated,
    Faulted,
}

/// One worker of the pool. It decides, entry by entry, whether to run a job
/// and keep looping or to exit on a stop signal.
#[derive(Clone, Copy)]
pub struct Worker {
    state: WorkerState,
}

impl View for Worker {
    type V = WorkerState;

    closed spec fn view(&self) -> WorkerState {
        self.state
    }
}

impl Worker {
    /// A fresh worker, ready to take entries.
    pub fn new() -> (w: Worker)
        ensures
            w@ is Running,
    {
        Worker { state: WorkerState::Running }
    }

    /// Where this worker stands.
    pub fn state(&self) -> (s: WorkerState)
        ensures
            s == self@,
    {
        self.state
    }

    /// The worker's decision on one dispatch entry: a job is handed back to
    /// be invoked and the worker keeps looping; a stop signal retires the
    /// worker and nothing is handed back.
    pub fn on_entry<J>(&mut self, e: Entry<J>) -> (r: Option<J>)
        requires
            old(self)@ is Running,
        ensures
            e matches Entry::Work(j) ==> r == Some(j) && final(self)@ is Running,
            e is Stop ==> r is None && final(self)@ is Terminated,
    {
        match e {
            Entry::Work(j) => Some(j),
            Entry::Stop => {
                self.state = WorkerState::Terminated;
                None
            },
        }
    }

    /// The job this worker was invoking faulted: the fault is not contained,
    /// so the worker is dead from here on and takes no further entries.
    pub fn on_fault(&mut self)
        requires
            old(self)@ is Running,
        ensures
            final(self)@ is Faulted,
    {
        self.state = WorkerState::Faulted;
    }
}

/// The states of a row of workers, in registration order.
pub open spec fn states_of(ws: Seq<Worker>) -> Seq<WorkerState> {
    ws.map_values(|w: Worker| w@)
}

/// How many of the states are running.
pub open spec fn running_count(ss: Seq<WorkerState>) -> nat
    decreases ss.len(),
{
    if ss.len() == 0 {
        0
    } else {
        (if ss[0] is Running {
            1nat
        } else {
            0nat
        }) + running_count(ss.drop_first())
    }
}

/// How many of the states are faulted.
pub open spec fn faulted_count(ss: Seq<WorkerState>) -> nat
    decreases ss.len(),
{
    if ss.len() == 0 {
        0
    } else {
        (if ss[0] is Faulted {
            1nat
        } else {
            0nat
        }) + faulted_count(ss.drop_first())
    }
}

/// Running and faulted counts both split over concatenation.
pub proof fn lemma_count_concat(a: Seq<WorkerState>, b: Seq<WorkerState>)
    ensures
        running_count(a + b) == running_count(a) + running_count(b),
        faulted_count(a + b) == faulted_count(a) + faulted_count(b),
    decreases a.len(),
{
    if a.len() == 0 {
        assert(a + b =~= b);
    } else {
        assert((a + b).drop_first() =~= a.drop_first() + b);
        lemma_count_concat(a.drop_first(), b);
    }
}

/// Replacing one state trades its contribution to each count for the new
/// state's contribution.
pub proof fn lemma_count_update(ss: Seq<WorkerState>, i: int, st: WorkerState)
    requires
        0 <= i < ss.len(),
    ensures
        running_count(ss.update(i, st)) + (if ss[i] is Running {
            1nat
        } else {
            0nat
        }) == running_count(ss) + (if st is Running {
            1nat
        } else {
            0nat
        }),
        faulted_count(ss.update(i, st)) + (if ss[i] is Faulted {
            1nat
        } else {
            0nat
        }) == faulted_count(ss) + (if st is Faulted {
            1nat
        } else {
            0nat
        }),
{
    let front = ss.take(i);
    let back = ss.skip(i + 1);
    assert(ss =~= front + (seq![ss[i]] + back));
    assert(ss.update(i, st) =~= front + (seq![st] + back));
    lemma_count_single_concat(ss[i], back);
    lemma_count_single_concat(st, back);
    lemma_count_concat(front, seq![ss[i]] + back);
    lemma_count_concat(front, seq![st] + back);
}

/// A single state in front of a row contributes exactly itself to each count.
proof fn lemma_count_single_concat(st: WorkerState, rest: Seq<WorkerState>)
    ensures
        running_count(seq![st] + rest) == running_count(rest) + (if st is Running {
            1nat
        } else {
            0nat
        }),
        faulted_count(seq![st] + rest) == faulted_count(rest) + (if st is Faulted {
            1nat
        } else {
            0nat
        }),
{
    assert((seq![st] + rest)[0] == st);
    assert((seq![st] + rest).drop_first() =~= rest);
}

/// Appending one state adds exactly its own contribution to each count.
pub proof fn lemma_count_push(ss: Seq<WorkerState>, st: WorkerState)
    ensures
        running_count(ss.push(st)) == running_count(ss) + (if st is Running {
            1nat
        } else {
            0nat
        }),
        faulted_count(ss.push(st)) == faulted_count(ss) + (if st is Faulted {
            1nat
        } else {
            0nat
        }),
{
    assert(ss.push(st) =~= ss + seq![st]);
    lemma_count_concat(ss, seq![st]);
    lemma_count_single_concat(st, Seq::empty());
    assert(seq![st] + Seq::<WorkerState>::empty() =~= seq![st]);
}

/// No worker is running exactly when the running count is zero.
pub proof fn lemma_none_running(ss: Seq<WorkerState>)
    ensures
        running_count(ss) == 0 <==> (forall|i: int|
            0 <= i < ss.len() ==> !((#[trigger] ss[i]) is Running)),
    decreases ss.len(),
{
    if ss.len() > 0 {
        let rest = ss.drop_first();
        lemma_none_running(rest);
        if running_count(ss) == 0 {
            assert forall|i: int| 0 <= i < ss.len() implies !((#[trigger] ss[i]) is Running) by {
                if i > 0 {
                    assert(ss[i] == rest[i - 1]);
                    assert(!(rest[i - 1] is Running));
                }
            }
        } else {
            if !(ss[0] is Running) {
                assert(running_count(rest) > 0);
                assert(exists|j: int| 0 <= j < rest.len() && (#[trigger] rest[j]) is Running);
                let j = choose|j: int| 0 <= j < rest.len() && (#[trigger] rest[j]) is Running;
                assert(ss[j + 1] is Running);
            }
        }
    }
}

/// A row of workers cannot have more running members than members.
pub proof fn lemma_running_count_le_len(ss: Seq<WorkerState>)
    ensures
        running_count(ss) <= ss.len(),
    decreases ss.len(),
{
    if ss.len() > 0 {
        lemma_running_count_le_len(ss.drop_first());
    }
}

} // verus!
