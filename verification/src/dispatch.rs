//! The dispatch channel: the unbounded first-in first-out queue of entries
//! that the pool fills and the workers drain.

use vstd::prelude::*;

verus! {

/// One entry carried by the dispatch channel: a job to run, or the stop
/// signal that retires exactly one worker.
pub enum Entry<J> {
    Work(J),
    Stop,
}

/// The jobs carried by a sequence of entries, in order.
pub open spec fn jobs_of<J>(s: Seq<Entry<J>>) -> Seq<J>
    decreases s.len(),
{
    if s.len() == 0 {
        Seq::empty()
    } else {
        match s[0] {
            Entry::Work(j) => seq![j] + jobs_of(s.drop_first()),
            Entry::Stop => jobs_of(s.drop_first()),
        }
    }
}

/// How many stop signals a sequence of entries carries.
pub open spec fn stop_count<J>(s: Seq<Entry<J>>) -> nat
    decreases s.len(),
{
    if s.len() == 0 {
        0
    } else {
        (if s[0] is Stop {
            1nat
        } else {
            0nat
        }) + stop_count(s.drop_first())
    }
}

/// Jobs and stop signals both split over concatenation.
pub proof fn lemma_dispatch_concat<J>(a: Seq<Entry<J>>, b: Seq<Entry<J>>)
    ensures
        jobs_of(a + b) == jobs_of(a) + jobs_of(b),
        stop_count(a + b) == stop_count(a) + stop_count(b),
    decreases a.len(),
{
    if a.len() == 0 {
        assert(a + b =~= b);
        assert(jobs_of(a) + jobs_of(b) =~= jobs_of(b));
    } else {
        assert((a + b).drop_first() =~= a.drop_first() + b);
        lemma_dispatch_concat(a.drop_first(), b);
        match a[0] {
            Entry::Work(j) => {
                assert(jobs_of(a + b) =~= jobs_of(a) + jobs_of(b));
            },
            Entry::Stop => {},
        }
    }
}

/// Appending one entry appends its job, or raises the stop count by one.
pub proof fn lemma_dispatch_push<J>(s: Seq<Entry<J>>, e: Entry<J>)
    ensures
        e matches Entry::Work(j) ==> jobs_of(s.push(e)) == jobs_of(s).push(j),
        e is Stop ==> jobs_of(s.push(e)) == jobs_of(s),
        stop_count(s.push(e)) == stop_count(s) + (if e is Stop {
            1nat
        } else {
            0nat
        }),
{
    assert(s.push(e) =~= s + seq![e]);
    lemma_dispatch_concat(s, seq![e]);
    assert(seq![e].drop_first() =~= Seq::<Entry<J>>::empty());
    assert(jobs_of(Seq::<Entry<J>>::empty()) == Seq::<J>::empty());
    assert(stop_count(Seq::<Entry<J>>::empty()) == 0);
    assert(seq![e][0] == e);
    match e {
        Entry::Work(j) => {
            assert(jobs_of(seq![e]) =~= seq![j]);
            assert(jobs_of(s) + seq![j] =~= jobs_of(s).push(j));
        },
        Entry::Stop => {
            assert(jobs_of(seq![e]) =~= Seq::<J>::empty());
            assert(jobs_of(s) + Seq::<J>::empty() =~= jobs_of(s));
        },
    }
}

/// A run of `n` stop signals and nothing else.
pub open spec fn stops<J>(n: nat) -> Seq<Entry<J>> {
    Seq::new(n, |i: int| Entry::Stop)
}

/// A run of stop signals carries no job and exactly `n` stop signals.
pub proof fn lemma_stops<J>(n: nat)
    ensures
        jobs_of(stops::<J>(n)) == Seq::<J>::empty(),
        stop_count(stops::<J>(n)) == n,
    decreases n,
{
    if n > 0 {
        assert(stops::<J>(n).drop_first() =~= stops::<J>((n - 1) as nat));
        lemma_stops::<J>((n - 1) as nat);
        assert(jobs_of(stops::<J>(n)) =~= Seq::<J>::empty());
    } else {
        assert(stops::<J>(n) =~= Seq::<Entry<J>>::empty());
    }
}

/// In a stretch of the channel with no stop signal, the front entry is a job.
pub proof fn lemma_no_stop_front_is_work<J>(s: Seq<Entry<J>>)
    requires
        stop_count(s) == 0,
        s.len() > 0,
    ensures
        s[0] is Work,
{
}

/// The channel that carries dispatch entries from the pool to the workers.
///
/// The pool enqueues at the back; a worker takes from the front, so entries
/// are handed out first-in first-out, each entry to exactly one taker.
/// Sending never fails and never waits for space: the queue is unbounded.
pub struct Channel<J> {
    entries: Vec<Entry<J>>,
}

impl<J> View for Channel<J> {
    type V = Seq<Entry<J>>;

    closed spec fn view(&self) -> Seq<Entry<J>> {
        self.entries@
    }
}

impl<J> Channel<J> {
    /// A new, empty channel.
    pub fn new() -> (c: Channel<J>)
        ensures
            c@ == Seq::<Entry<J>>::empty(),
    {
        Channel { entries: Vec::new() }
    }

    /// Enqueue one entry at the back. Never fails and never blocks the
    /// sender: submission cannot stall on a full queue.
    pub fn send(&mut self, e: Entry<J>)
        ensures
            final(self)@ == old(self)@.push(e),
    {
        self.entries.push(e);
    }

    /// Take the entry at the front, if any: the oldest entry leaves the
    /// channel, and it leaves exactly once.
    pub fn receive(&mut self) -> (r: Option<Entry<J>>)
        ensures
            match r {
                Some(e) => old(self)@.len() > 0 && e == old(self)@[0] && final(self)@ == old(
                    self,
                )@.drop_first(),
                None => old(self)@.len() == 0 && final(self)@ == old(self)@,
            },
    {
        if self.entries.len() == 0 {
            None
        } else {
            let e = self.entries.remove(0);
            proof {
                assert(self.entries@ =~= old(self)@.drop_first());
            }
            Some(e)
        }
    }

    /// How many entries wait in the channel.
    pub fn len(&self) -> (n: usize)
        ensures
            n == self@.len(),
    {
        self.entries.len()
    }
}

} // verus!
