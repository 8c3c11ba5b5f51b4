//! Admission to the execution pool.
//!
//! A guest runs for as long as its deadline lets it, so it runs on threads of
//! its own, and a bounded number of requests is let in at all: bounding the
//! work in progress is what bounds its latency.
use vstd::prelude::*;

verus! {

/// The handler every guest exports.
pub const HANDLER_EXPORT: &'static str = "run";

#[derive(Clone, Copy, PartialEq, Eq, Structural, Debug)]
pub enum PoolError {
    /// The queue is full: the earlier of two signals to shed.
    Full,
    /// The pool is gone, or a thread died in the middle of a job.
    Stopped,
}

/// Proof that a request was admitted. Holding one reserves a slot, until it is
/// submitted or released. It knows whether the request had to wait for its
/// artifact.
pub struct Admitted {
    cold: bool,
}

impl Admitted {
    pub closed spec fn is_cold(&self) -> bool {
        self.cold
    }

    /// The same slot, of a request that has to fetch its artifact.
    pub fn fetching(self) -> (out: Admitted)
        ensures
            out.is_cold(),
    {
        Admitted { cold: true }
    }
}

/// Proof that a request was submitted, and whether it was a cold start.
pub struct Submitted {
    cold: bool,
}

impl Submitted {
    pub closed spec fn is_cold(&self) -> bool {
        self.cold
    }

    pub fn cold(&self) -> (out: bool)
        ensures
            out == self.is_cold(),
    {
        self.cold
    }
}

pub struct PoolView {
    pub threads: nat,
    /// How many requests may be in progress at once.
    pub limit: nat,
    pub permits: nat,
    pub queued: nat,
    pub in_flight: nat,
}

impl PoolView {
    /// Requests that were admitted and not yet submitted.
    pub open spec fn held(self) -> int {
        self.limit - self.permits - self.queued - self.in_flight
    }

    /// Every slot is free, held, waiting or running.
    pub open spec fn wf(self) -> bool {
        &&& self.threads > 0
        &&& self.limit > 0
        &&& self.held() >= 0
        &&& self.in_flight <= self.threads
    }

    pub open spec fn admitted(self) -> PoolView {
        if self.permits > 0 {
            PoolView { permits: (self.permits - 1) as nat, ..self }
        } else {
            self
        }
    }

    pub open spec fn released(self) -> PoolView {
        PoolView { permits: self.permits + 1, ..self }
    }

    pub open spec fn submitted(self) -> PoolView {
        PoolView { queued: self.queued + 1, ..self }
    }

    pub open spec fn started(self) -> PoolView {
        PoolView {
            queued: (self.queued - 1) as nat,
            in_flight: self.in_flight + 1,
            ..self
        }
    }

    pub open spec fn finished(self) -> PoolView {
        PoolView {
            in_flight: (self.in_flight - 1) as nat,
            permits: self.permits + 1,
            ..self
        }
    }
}

/// The slots of the pool.
pub struct ExecPool {
    threads: usize,
    limit: usize,
    permits: usize,
    queued: usize,
    in_flight: usize,
}

impl View for ExecPool {
    type V = PoolView;

    closed spec fn view(&self) -> PoolView {
        PoolView {
            threads: self.threads as nat,
            limit: self.limit as nat,
            permits: self.permits as nat,
            queued: self.queued as nat,
            in_flight: self.in_flight as nat,
        }
    }
}

/// One execution thread per core, unless the platform declines to say how many
/// there are.
pub fn default_threads(cores: Option<usize>) -> (out: usize)
    ensures
        out == match cores {
            Some(n) => n,
            None => 4,
        },
{
    match cores {
        Some(n) => n,
        None => 4,
    }
}

impl ExecPool {
    pub fn new(threads: usize, max_concurrent: usize) -> (out: Self)
        requires
            threads > 0,
            max_concurrent > 0,
        ensures
            out@.wf(),
            out@ == (PoolView {
                threads: threads as nat,
                limit: max_concurrent as nat,
                permits: max_concurrent as nat,
                queued: 0,
                in_flight: 0,
            }),
    {
        ExecPool { threads, limit: max_concurrent, permits: max_concurrent, queued: 0, in_flight: 0 }
    }

    /// Two requests in progress per thread, so that a little queueing is
    /// possible.
    pub fn with_default_size(threads: usize) -> (out: Self)
        requires
            0 < threads <= usize::MAX / 2,
        ensures
            out@.wf(),
            out@.threads == threads,
            out@.limit == 2 * threads,
            out@.permits == 2 * threads,
            out@.queued == 0,
            out@.in_flight == 0,
    {
        ExecPool::new(threads, threads * 2)
    }

    /// Admission control. It never waits: shedding costs a comparison, so an
    /// overloaded worker sheds at once instead of queueing its way into a
    /// timeout.
    pub fn try_admit(&mut self) -> (out: Option<Admitted>)
        requires
            old(self)@.wf(),
        ensures
            final(self)@.wf(),
            out is Some <==> old(self)@.permits > 0,
            out matches Some(admitted) ==> !admitted.is_cold(),
            final(self)@ == old(self)@.admitted(),
    {
        if self.permits == 0 {
            return None;
        }
        self.permits = self.permits - 1;
        Some(Admitted { cold: false })
    }

    /// Gives a slot back without using it.
    pub fn release(&mut self, admitted: Admitted)
        requires
            old(self)@.wf(),
            old(self)@.held() > 0,
        ensures
            final(self)@.wf(),
            final(self)@ == old(self)@.released(),
    {
        self.permits = self.permits + 1;
    }

    /// Puts an admitted job in the queue. A job that finds no room gives its
    /// slot back.
    pub fn submit(&mut self, admitted: Admitted) -> (out: Result<Submitted, PoolError>)
        requires
            old(self)@.wf(),
            old(self)@.held() > 0,
        ensures
            final(self)@.wf(),
            out is Ok <==> old(self)@.queued < old(self)@.limit,
            out matches Err(why) ==> why == PoolError::Full && final(self)@ == old(self)@.released(),
            out matches Ok(submitted) ==> submitted.is_cold() == admitted.is_cold()
                && final(self)@ == old(self)@.submitted(),
    {
        if self.queued >= self.limit {
            self.permits = self.permits + 1;
            return Err(PoolError::Full);
        }
        self.queued = self.queued + 1;
        Ok(Submitted { cold: admitted.cold })
    }

    /// An idle thread takes a job.
    pub fn start(&mut self)
        requires
            old(self)@.wf(),
            old(self)@.queued > 0,
            old(self)@.in_flight < old(self)@.threads,
        ensures
            final(self)@.wf(),
            final(self)@ == old(self)@.started(),
    {
        self.queued = self.queued - 1;
        self.in_flight = self.in_flight + 1;
    }

    /// A job is over, however it went: its slot is free again.
    pub fn finish(&mut self)
        requires
            old(self)@.wf(),
            old(self)@.in_flight > 0,
        ensures
            final(self)@.wf(),
            final(self)@ == old(self)@.finished(),
    {
        self.in_flight = self.in_flight - 1;
        self.permits = self.permits + 1;
    }

    pub fn in_flight(&self) -> (out: usize)
        ensures
            out == self@.in_flight,
    {
        self.in_flight
    }

    /// Queue depth: a leading indicator of shedding.
    pub fn queue_depth(&self) -> (out: usize)
        ensures
            out == self@.queued,
    {
        self.queued
    }

    pub fn threads(&self) -> (out: usize)
        ensures
            out == self@.threads,
    {
        self.threads
    }

    pub fn available_permits(&self) -> (out: usize)
        ensures
            out == self@.permits,
    {
        self.permits
    }
}

/// An admitted job always finds room in the queue.
pub proof fn law_an_admitted_job_finds_room(pool: PoolView)
    requires
        pool.wf(),
        pool.held() > 0,
    ensures
        pool.queued < pool.limit,
{
}

/// No more than the limit is ever in progress, and what is let in comes out:
/// admission, the queue and the threads keep every slot accounted for.
pub proof fn law_slots_are_conserved(pool: PoolView)
    requires
        pool.wf(),
    ensures
        pool.queued + pool.in_flight <= pool.limit,
        pool.permits <= pool.limit,
        pool.permits > 0 ==> pool.admitted().held() == pool.held() + 1,
        pool.held() > 0 ==> pool.submitted().held() == pool.held() - 1,
        pool.queued > 0 ==> pool.started().held() == pool.held(),
        pool.in_flight > 0 ==> pool.finished().held() == pool.held(),
{
}

/// A request that is admitted, run and finished leaves the pool as it found it.
pub proof fn law_a_finished_job_gives_its_slot_back(pool: PoolView)
    requires
        pool.wf(),
        pool.permits > 0,
    ensures
        pool.admitted().submitted().started().finished() == pool,
        pool.admitted().released() == pool,
{
}

/// Each step moves one slot on: admission takes a free one, submission puts it in
/// the queue, a thread takes it from there, and the end of a run frees it. No step
/// changes how many slots or threads there are.
pub proof fn law_each_step_moves_one_slot(pool: PoolView)
    requires
        pool.wf(),
    ensures
        pool.permits > 0 ==> pool.admitted().permits == pool.permits - 1,
        pool.permits == 0 ==> pool.admitted() == pool,
        pool.admitted().queued == pool.queued && pool.admitted().in_flight == pool.in_flight,
        pool.released().permits == pool.permits + 1 && pool.released().queued == pool.queued
            && pool.released().in_flight == pool.in_flight,
        pool.submitted().queued == pool.queued + 1 && pool.submitted().permits == pool.permits
            && pool.submitted().in_flight == pool.in_flight,
        pool.queued > 0 ==> pool.started().queued == pool.queued - 1 && pool.started().in_flight
            == pool.in_flight + 1 && pool.started().permits == pool.permits,
        pool.in_flight > 0 ==> pool.finished().in_flight == pool.in_flight - 1
            && pool.finished().permits == pool.permits + 1 && pool.finished().queued == pool.queued,
        pool.admitted().limit == pool.limit && pool.released().limit == pool.limit
            && pool.submitted().limit == pool.limit && pool.started().limit == pool.limit
            && pool.finished().limit == pool.limit,
        pool.admitted().threads == pool.threads && pool.released().threads == pool.threads
            && pool.submitted().threads == pool.threads && pool.started().threads == pool.threads
            && pool.finished().threads == pool.threads,
{
}

} // verus!
