//! The core of a fixed-size worker pool: the sending end of its job queue
//! and its bookkeeping. It knows which jobs are queued and which are running,
//! when a caller that waits for the pool may go on, and what a worker does
//! with what it receives from the queue.
//!
//! The worker threads live with the caller: each of them blocks on the
//! receiving end of the queue and acts on the decisions taken here.

use crossbeam_channel::{Receiver, SendError, Sender};
use vstd::prelude::*;

verus! {

/// `crossbeam_channel::Sender`, the sending end of a channel. Nothing is
/// known of what is inside.
#[verifier::external_type_specification]
#[verifier::external_body]
#[verifier::reject_recursive_types(T)]
pub struct ExSender<T>(Sender<T>);

/// `crossbeam_channel::Receiver`, the receiving end of a channel. Nothing
/// is known of what is inside.
#[verifier::external_type_specification]
#[verifier::external_body]
#[verifier::reject_recursive_types(T)]
pub struct ExReceiver<T>(Receiver<T>);

/// The sending end of a pool's job queue. The only way to make one is
/// `open_queue`, so the channel behind it is always an unbounded one.
#[verifier::reject_recursive_types(J)]
pub struct JobQueue<J> {
    sender: Sender<J>,
}

/// Calls `crossbeam_channel::unbounded` and wraps the sending end. Nothing
/// is claimed of the two ends.
#[verifier::external_body]
fn open_queue<J>() -> (ends: (JobQueue<J>, Receiver<J>)) {
    let (sender, receiver) = crossbeam_channel::unbounded();
    (JobQueue { sender }, receiver)
}

/// Calls `crossbeam_channel::Sender::send` on the queue's unbounded channel,
/// where it never blocks. Whether the job is taken depends on whether a
/// receiving end is still alive, so nothing is claimed of that; what is
/// claimed is that a job that is not taken is the one that comes back.
#[verifier::external_body]
fn send_job<J>(queue: &JobQueue<J>, job: J) -> (refused: Option<J>)
    ensures
        refused.is_some() ==> refused == Some(job),
{
    match queue.sender.send(job) {
        Ok(()) => None,
        Err(SendError(job)) => Some(job),
    }
}

/// The count of jobs that workers are running, shared by the workers and by
/// whoever waits for the pool to fall idle.
pub struct ThreadPoolInner {
    job_count: usize,
}

impl ThreadPoolInner {
    /// The number of jobs that have been started and have not finished.
    pub closed spec fn view(&self) -> nat {
        self.job_count as nat
    }

    /// A counter with no job running.
    pub fn new() -> (inner: Self)
        ensures
            inner@ == 0,
    {
        ThreadPoolInner { job_count: 0 }
    }

    /// The current job count.
    pub fn job_count(&self) -> (count: usize)
        ensures
            count == self@,
    {
        self.job_count
    }

    /// Increment the job count.
    pub fn start_job(&mut self)
        requires
            old(self)@ < usize::MAX,
        ensures
            final(self)@ == old(self)@ + 1,
    {
        self.job_count = self.job_count + 1;
    }

    /// Decrement the job count. Returns `true` if the count reached zero, in
    /// which case whoever waits for the pool must be woken.
    pub fn finish_job(&mut self) -> (idle: bool)
        requires
            old(self)@ > 0,
        ensures
            final(self)@ == old(self)@ - 1,
            idle == (final(self)@ == 0),
    {
        self.job_count = self.job_count - 1;
        self.job_count == 0
    }

    /// One look of a waiter at the count: `true` if the job count is zero
    /// and the waiter may go on, `false` if it has to wait for the next
    /// wake-up and look again.
    pub fn wait_empty(&self) -> (done: bool)
        ensures
            done == (self@ == 0),
    {
        self.job_count == 0
    }
}

/// What a worker got from the queue.
#[derive(Clone, Copy, Debug, PartialEq, Eq, Structural)]
pub enum Received {
    /// A job.
    Job,
    /// Word that the queue is closed and drained.
    Closed,
}

/// What a worker does next.
#[derive(Clone, Copy, Debug, PartialEq, Eq, Structural)]
pub enum WorkerAction {
    /// Run the job, then report that it finished.
    Run,
    /// Leave the loop and end the thread.
    Exit,
}

/// A pool's core: its size, the sending end of its job queue, the count of
/// jobs in the queue and the count of jobs its workers are running. The pool
/// is open as long as it holds the sending end.
#[verifier::reject_recursive_types(J)]
pub struct ThreadPool<J> {
    size: usize,
    queued: usize,
    inner: ThreadPoolInner,
    job_sender: Option<JobQueue<J>>,
}

impl<J> ThreadPool<J> {
    /// The number of worker threads.
    pub closed spec fn size(&self) -> nat {
        self.size as nat
    }

    /// The number of jobs in the queue that no worker has taken yet.
    pub closed spec fn queued(&self) -> nat {
        self.queued as nat
    }

    /// The number of jobs that workers are running.
    pub closed spec fn running(&self) -> nat {
        self.inner@
    }

    /// The queue takes jobs.
    pub closed spec fn is_open(&self) -> bool {
        self.job_sender.is_some()
    }

    /// The number of jobs that were handed in and have not finished.
    pub open spec fn outstanding(&self) -> nat {
        self.queued() + self.running()
    }

    /// The counts and the open flag are those of `other`.
    pub open spec fn same_state(&self, other: &Self) -> bool {
        &&& self.size() == other.size()
        &&& self.queued() == other.queued()
        &&& self.running() == other.running()
        &&& self.is_open() == other.is_open()
    }

    /// Create a new pool core for `size` threads, together with the
    /// receiving end of its job queue, which the workers share. The pool is
    /// open, with nothing queued and nothing running. A pool has at least
    /// one thread.
    pub fn new(size: usize) -> (made: (Self, Receiver<J>))
        requires
            size > 0,
        ensures
            made.0.size() == size,
            made.0.queued() == 0,
            made.0.running() == 0,
            made.0.is_open(),
    {
        let (queue, receiver) = open_queue();
        let pool = ThreadPool {
            size,
            queued: 0,
            inner: ThreadPoolInner::new(),
            job_sender: Some(queue),
        };
        (pool, receiver)
    }

    /// The number of worker threads.
    pub fn thread_count(&self) -> (size: usize)
        ensures
            size == self.size(),
    {
        self.size
    }

    /// The number of jobs in the queue that no worker has taken yet.
    pub fn queued_jobs(&self) -> (count: usize)
        ensures
            count == self.queued(),
    {
        self.queued
    }

    /// The number of jobs that workers are running.
    pub fn running_jobs(&self) -> (count: usize)
        ensures
            count == self.running(),
    {
        self.inner.job_count()
    }

    /// Says whether a job can be handed in now: the pool is open and its
    /// queue count has room.
    pub fn accepts(&self) -> (ok: bool)
        ensures
            ok == (self.is_open() && self.queued() < usize::MAX),
    {
        self.job_sender.is_some() && self.queued < usize::MAX
    }

    /// Books the outcome of sending a job into the queue. A job that was
    /// taken counts as outstanding from this moment on; a job that was
    /// refused is handed back to the caller and changes nothing.
    pub fn enqueued(&mut self, refused: Option<J>) -> (r: Result<(), J>)
        requires
            old(self).queued() < usize::MAX,
        ensures
            r == match refused {
                None => Ok::<(), J>(()),
                Some(job) => Err::<(), J>(job),
            },
            final(self).size() == old(self).size(),
            final(self).running() == old(self).running(),
            final(self).is_open() == old(self).is_open(),
            final(self).queued() == if refused.is_none() {
                old(self).queued() + 1
            } else {
                old(self).queued()
            },
    {
        match refused {
            None => {
                self.queued = self.queued + 1;
                Ok(())
            },
            Some(job) => Err(job),
        }
    }

    /// Hands a job to the pool. A closed pool takes no job: the job comes
    /// back in `Err` and nothing changes. An open pool sends the job into
    /// its queue; if no worker is left to receive it, the job comes back in
    /// `Err` and nothing changes, else the job is queued and outstanding.
    pub fn execute(&mut self, job: J) -> (r: Result<(), J>)
        requires
            old(self).queued() < usize::MAX,
        ensures
            !old(self).is_open() ==> r.is_err(),
            match r {
                Ok(_) => old(self).is_open() && final(self).queued() == old(self).queued() + 1,
                Err(back) => back == job && final(self).queued() == old(self).queued(),
            },
            final(self).size() == old(self).size(),
            final(self).running() == old(self).running(),
            final(self).is_open() == old(self).is_open(),
    {
        let refused = match &self.job_sender {
            None => Some(job),
            Some(queue) => send_job(queue, job),
        };
        self.enqueued(refused)
    }

    /// A worker's step: decides what the worker does with what it received.
    /// A job moves from the queue to the running jobs; the close signal
    /// changes nothing and ends the worker.
    pub fn worker_step(&mut self, received: Received) -> (action: WorkerAction)
        requires
            received == Received::Job ==> old(self).queued() > 0 && old(self).running()
                < usize::MAX,
        ensures
            final(self).size() == old(self).size(),
            final(self).is_open() == old(self).is_open(),
            match received {
                Received::Job => action == WorkerAction::Run && final(self).queued() == old(self).queued() - 1 && final(self).running() == old(self).running() + 1,
                Received::Closed => action == WorkerAction::Exit && final(self).same_state(
                    old(self),
                ),
            },
            final(self).outstanding() == old(self).outstanding(),
    {
        match received {
            Received::Job => {
                self.queued = self.queued - 1;
                self.inner.start_job();
                WorkerAction::Run
            },
            Received::Closed => WorkerAction::Exit,
        }
    }

    /// A worker reports that its job has finished, by returning or by
    /// failing. Returns `true` if no job is running any more, in which case
    /// the waiters must be woken.
    pub fn job_done(&mut self) -> (idle: bool)
        requires
            old(self).running() > 0,
        ensures
            final(self).running() == old(self).running() - 1,
            final(self).queued() == old(self).queued(),
            final(self).size() == old(self).size(),
            final(self).is_open() == old(self).is_open(),
            idle == (final(self).running() == 0),
    {
        self.inner.finish_job()
    }

    /// Says whether a caller that waits for the pool may go on: every job
    /// handed in so far has finished, none is queued and none is running.
    pub fn join(&self) -> (done: bool)
        ensures
            done == (self.outstanding() == 0),
    {
        self.queued == 0 && self.inner.wait_empty()
    }

    /// Closes the queue by letting go of its sending end: no further job is
    /// taken. Jobs already queued are still run, and the workers learn of
    /// the end once the queue is drained.
    pub fn close(&mut self)
        ensures
            !final(self).is_open(),
            final(self).queued() == old(self).queued(),
            final(self).running() == old(self).running(),
            final(self).size() == old(self).size(),
    {
        self.job_sender = None;
    }

    /// Says whether a worker that asks the queue for a job is told that the
    /// queue is closed: the pool is closed and its queue is drained.
    pub fn drained(&self) -> (closed: bool)
        ensures
            closed == (!self.is_open() && self.queued() == 0),
    {
        self.job_sender.is_none() && self.queued == 0
    }
}

} // verus!
