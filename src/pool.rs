use vstd::prelude::*;

verus! {

/// What travels through the intake queue: a job to run once, or the signal
/// that tells the worker who takes it to stop.
pub enum Message<J> {
    NewJob(J),
    Terminate,
}

/// Lifecycle of one worker: it serves the queue while `Running`, stops for
/// good once it has taken a `Terminate`, and is `Joined` once its thread
/// handle has been taken and waited for.
#[derive(PartialEq, Eq, Structural, Clone, Copy, Debug)]
pub enum WorkerState {
    Running,
    Terminated,
    Joined,
}

/// One unit of pool capacity, known by its index in the pool.
pub struct Worker {
    id: usize,
    state: WorkerState,
}

impl Worker {
    pub closed spec fn id_spec(&self) -> usize {
        self.id
    }

    pub closed spec fn state_spec(&self) -> WorkerState {
        self.state
    }

    /// A fresh worker with the given id, ready to serve the queue.
    pub fn new(id: usize) -> (w: Worker)
        ensures
            w.id_spec() == id,
            w.state_spec() == WorkerState::Running,
    {
        Worker { id, state: WorkerState::Running }
    }

    /// The worker's index in its pool.
    pub fn id(&self) -> (r: usize)
        ensures
            r == self.id_spec(),
    {
        self.id
    }

    /// Where the worker stands in its lifecycle.
    pub fn state(&self) -> (r: WorkerState)
        ensures
            r == self.state_spec(),
    {
        self.state
    }
}

/// The abstract state of a pool.
pub struct PoolModel<J> {
    /// State of each worker, indexed by worker id.
    pub states: Seq<WorkerState>,
    /// Messages enqueued and not yet taken, oldest first.
    pub queue: Seq<Message<J>>,
    /// Whether the terminate signals have been sent.
    pub shutting_down: bool,
    /// Every job ever submitted, in submission order.
    pub submitted: Seq<J>,
    /// Every job handed to a worker, in the order they were handed out.
    pub delivered: Seq<J>,
}


/// The jobs carried by the `NewJob` messages of `q`, in queue order.
pub open spec fn jobs_of<J>(q: Seq<Message<J>>) -> Seq<J>
    decreases q.len(),
{
    if q.len() == 0 {
        Seq::empty()
    } else {
        let rest = jobs_of(q.drop_first());
        match q[0] {
            Message::NewJob(j) => seq![j] + rest,
            Message::Terminate => rest,
        }
    }
}

/// How many `Terminate` messages `q` holds.
pub open spec fn terminates_in<J>(q: Seq<Message<J>>) -> nat
    decreases q.len(),
{
    if q.len() == 0 {
        0
    } else {
        (if q[0] is Terminate { 1nat } else { 0nat }) + terminates_in(q.drop_first())
    }
}

/// How many workers have stopped serving the queue.
pub open spec fn stopped_count(s: Seq<WorkerState>) -> nat
    decreases s.len(),
{
    if s.len() == 0 {
        0
    } else {
        (if s[0] != WorkerState::Running { 1nat } else { 0nat }) + stopped_count(s.drop_first())
    }
}

/// `n` terminate signals.
pub open spec fn terminate_signals<J>(n: nat) -> Seq<Message<J>> {
    Seq::new(n, |i: int| Message::Terminate)
}

impl<J> PoolModel<J> {
    /// No `NewJob` stands behind a `Terminate` in the queue.
    pub open spec fn terminates_last(self) -> bool {
        forall|i: int, k: int|
            0 <= i < k < self.queue.len() && (#[trigger] self.queue[i]) is Terminate
                ==> (#[trigger] self.queue[k]) is Terminate
    }

    /// The protocol's invariant: at least one worker; each submitted job is
    /// either delivered or still queued, never both, and in submission order;
    /// before shutdown no terminate signal exists and every worker runs; after
    /// it, each worker has either stopped or has a terminate signal queued for
    /// it, one for one; and once a worker has stopped no job is left queued.
    pub open spec fn inv(self) -> bool {
        &&& self.states.len() > 0
        &&& self.submitted == self.delivered + jobs_of(self.queue)
        &&& self.terminates_last()
        &&& !self.shutting_down ==> terminates_in(self.queue) == 0 && stopped_count(self.states) == 0
        &&& self.shutting_down ==> terminates_in(self.queue) + stopped_count(self.states)
            == self.states.len()
        &&& stopped_count(self.states) > 0 ==> jobs_of(self.queue).len() == 0
    }
}

/// A fixed-size pool of workers that share one FIFO intake queue of jobs.
///
/// This type holds the pool's bookkeeping and decides every step of its
/// protocol; the threads that run the workers, and the lock that makes each
/// step atomic, belong to whoever drives it.
pub struct ThreadPool<J> {
    workers: Vec<Worker>,
    queue: Vec<Message<J>>,
    shutting_down: bool,
    submitted: Ghost<Seq<J>>,
    delivered: Ghost<Seq<J>>,
}

impl<J> View for ThreadPool<J> {
    type V = PoolModel<J>;

    closed spec fn view(&self) -> PoolModel<J> {
        PoolModel {
            states: self.workers@.map_values(|w: Worker| w.state),
            queue: self.queue@,
            shutting_down: self.shutting_down,
            submitted: self.submitted@,
            delivered: self.delivered@,
        }
    }
}

impl<J> ThreadPool<J> {
    /// Each worker's id is its index.
    pub closed spec fn ids_match(&self) -> bool {
        forall|i: int| 0 <= i < self.workers@.len() ==> (#[trigger] self.workers@[i]).id == i
    }

    /// Well-formedness: the protocol's invariant holds and ids are indices.
    pub open spec fn wf(&self) -> bool {
        self@.inv() && self.ids_match()
    }

    /// A pool of `size` running workers, numbered `0..size`, with an empty
    /// queue.
    pub fn new(size: usize) -> (pool: ThreadPool<J>)
        requires
            size > 0,
        ensures
            pool.wf(),
            pool@.states == Seq::new(size as nat, |i: int| WorkerState::Running),
            pool@.queue.len() == 0,
            !pool@.shutting_down,
            pool@.submitted.len() == 0,
            pool@.delivered.len() == 0,
    {
        let mut workers: Vec<Worker> = Vec::with_capacity(size);
        let mut id: usize = 0;
        while id < size
            invariant
                id <= size,
                workers@.len() == id,
                forall|i: int| 0 <= i < id ==> (#[trigger] workers@[i]).id == i
                    && workers@[i].state == WorkerState::Running,
            decreases size - id,
        {
            workers.push(Worker::new(id));
            id = id + 1;
        }
        let pool = ThreadPool {
            workers,
            queue: Vec::new(),
            shutting_down: false,
            submitted: Ghost(Seq::empty()),
            delivered: Ghost(Seq::empty()),
        };
        assert(pool@.states =~= Seq::new(size as nat, |i: int| WorkerState::Running));
        proof {
            lemma_stopped_none(pool@.states);
        }
        assert(pool@.submitted =~= pool@.delivered + jobs_of(pool@.queue));
        pool
    }
}

/// A sequence in which every worker runs counts no stopped worker.
proof fn lemma_stopped_none(s: Seq<WorkerState>)
    requires
        forall|i: int| 0 <= i < s.len() ==> s[i] == WorkerState::Running,
    ensures
        stopped_count(s) == 0,
    decreases s.len(),
{
    if s.len() > 0 {
        lemma_stopped_none(s.drop_first());
    }
}


/// Appending a message adds its job, or its signal, at the end.
proof fn lemma_push<J>(q: Seq<Message<J>>, m: Message<J>)
    ensures
        jobs_of(q.push(m)) == (match m {
            Message::NewJob(j) => jobs_of(q).push(j),
            Message::Terminate => jobs_of(q),
        }),
        terminates_in(q.push(m)) == terminates_in(q) + (if m is Terminate { 1nat } else { 0nat }),
    decreases q.len(),
{
    let p = q.push(m);
    if q.len() == 0 {
        assert(p.drop_first() =~= Seq::<Message<J>>::empty());
        assert(jobs_of(p.drop_first()) =~= Seq::<J>::empty());
        assert(terminates_in(p.drop_first()) == 0);
    } else {
        assert(p.drop_first() =~= q.drop_first().push(m));
        lemma_push(q.drop_first(), m);
        match q[0] {
            Message::NewJob(j) => {
                match m {
                    Message::NewJob(k) => {
                        assert(jobs_of(p) =~= jobs_of(q).push(k));
                    },
                    Message::Terminate => {},
                }
            },
            Message::Terminate => {},
        }
    }
}

/// A queue of terminate signals only carries no job.
proof fn lemma_only_terminates<J>(q: Seq<Message<J>>)
    requires
        forall|i: int| 0 <= i < q.len() ==> (#[trigger] q[i]) is Terminate,
    ensures
        jobs_of(q).len() == 0,
        terminates_in(q) == q.len(),
    decreases q.len(),
{
    if q.len() > 0 {
        assert(q[0] is Terminate);
        lemma_only_terminates(q.drop_first());
    }
}

/// A queue that counts no terminate signal holds none.
proof fn lemma_no_terminates<J>(q: Seq<Message<J>>)
    requires
        terminates_in(q) == 0,
    ensures
        forall|i: int| 0 <= i < q.len() ==> !((#[trigger] q[i]) is Terminate),
    decreases q.len(),
{
    if q.len() > 0 {
        lemma_no_terminates(q.drop_first());
        assert forall|i: int| 0 <= i < q.len() implies !((#[trigger] q[i]) is Terminate) by {
            if i > 0 {
                assert(q[i] == q.drop_first()[i - 1]);
            }
        }
    }
}

/// Every message is either a job or a terminate signal.
proof fn lemma_queue_len<J>(q: Seq<Message<J>>)
    ensures
        q.len() == jobs_of(q).len() + terminates_in(q),
    decreases q.len(),
{
    if q.len() > 0 {
        lemma_queue_len(q.drop_first());
    }
}

/// Changing the state of one worker moves the stopped count by at most one.
proof fn lemma_stopped_update(s: Seq<WorkerState>, i: int, st: WorkerState)
    requires
        0 <= i < s.len(),
    ensures
        stopped_count(s.update(i, st)) + (if s[i] != WorkerState::Running { 1nat } else { 0nat })
            == stopped_count(s) + (if st != WorkerState::Running { 1nat } else { 0nat }),
    decreases s.len(),
{
    let u = s.update(i, st);
    if i > 0 {
        assert(u.drop_first() =~= s.drop_first().update(i - 1, st));
        lemma_stopped_update(s.drop_first(), i - 1, st);
    } else {
        assert(u.drop_first() =~= s.drop_first());
    }
}

/// Where no worker runs, every worker counts as stopped.
proof fn lemma_stopped_all(s: Seq<WorkerState>)
    requires
        forall|i: int| 0 <= i < s.len() ==> s[i] != WorkerState::Running,
    ensures
        stopped_count(s) == s.len(),
    decreases s.len(),
{
    if s.len() > 0 {
        lemma_stopped_all(s.drop_first());
    }
}

impl<J> ThreadPool<J> {
    /// The number of workers.
    pub fn size(&self) -> (r: usize)
        ensures
            r == self@.states.len(),
    {
        self.workers.len()
    }

    /// Enqueues `job` at the back of the intake queue; it will be handed to
    /// exactly one worker, after every message enqueued before it.
    pub fn execute(&mut self, job: J)
        requires
            old(self).wf(),
            !old(self)@.shutting_down,
        ensures
            final(self).wf(),
            final(self)@.queue == old(self)@.queue.push(Message::NewJob(job)),
            final(self)@.submitted == old(self)@.submitted.push(job),
            final(self)@.delivered == old(self)@.delivered,
            final(self)@.states == old(self)@.states,
            !final(self)@.shutting_down,
    {
        proof {
            lemma_push(self.queue@, Message::NewJob(job));
            lemma_no_terminates(self.queue@);
        }
        let ghost j = job;
        self.submitted = Ghost(self.submitted@.push(j));
        self.queue.push(Message::NewJob(job));
        assert(self@.submitted =~= self@.delivered + jobs_of(self@.queue));
    }

    /// Starts teardown: enqueues exactly one terminate signal per worker,
    /// behind every job already queued.
    pub fn shutdown(&mut self)
        requires
            old(self).wf(),
            !old(self)@.shutting_down,
        ensures
            final(self).wf(),
            final(self)@.queue == old(self)@.queue + terminate_signals(old(self)@.states.len()),
            final(self)@.shutting_down,
            final(self)@.submitted == old(self)@.submitted,
            final(self)@.delivered == old(self)@.delivered,
            final(self)@.states == old(self)@.states,
    {
        let ghost q0 = self.queue@;
        let n = self.workers.len();
        self.shutting_down = true;
        let mut sent: usize = 0;
        while sent < n
            invariant
                n == self@.states.len(),
                sent <= n,
                self.ids_match(),
                self@.shutting_down,
                self@.states == old(self)@.states,
                self@.submitted == old(self)@.submitted,
                self@.delivered == old(self)@.delivered,
                stopped_count(self@.states) == 0,
                terminates_in(q0) == 0,
                q0 == old(self)@.queue,
                old(self)@.inv(),
                self.queue@ == q0 + terminate_signals(sent as nat),
                jobs_of(self.queue@) == jobs_of(q0),
                terminates_in(self.queue@) == sent,
                self@.terminates_last(),
            decreases n - sent,
        {
            proof {
                lemma_push(self.queue@, Message::Terminate);
            }
            self.queue.push(Message::Terminate);
            sent = sent + 1;
            assert(self.queue@ =~= q0 + terminate_signals(sent as nat));
        }
    }

    /// Whether a message waits in the queue.
    pub fn has_message(&self) -> (r: bool)
        ensures
            r == (self@.queue.len() > 0),
    {
        self.queue.len() > 0
    }

    /// Worker `id` takes the message at the front of the queue. A job is
    /// handed over to be run; a terminate signal stops the worker.
    pub fn receive(&mut self, id: usize) -> (m: Message<J>)
        requires
            old(self).wf(),
            id < old(self)@.states.len(),
            old(self)@.states[id as int] == WorkerState::Running,
            old(self)@.queue.len() > 0,
        ensures
            final(self).wf(),
            m == old(self)@.queue[0],
            final(self)@.queue == old(self)@.queue.drop_first(),
            final(self)@.submitted == old(self)@.submitted,
            final(self)@.shutting_down == old(self)@.shutting_down,
            match m {
                Message::NewJob(j) => final(self)@.delivered == old(self)@.delivered.push(j)
                    && final(self)@.states == old(self)@.states,
                Message::Terminate => final(self)@.delivered == old(self)@.delivered
                    && final(self)@.states == old(self)@.states.update(
                    id as int,
                    WorkerState::Terminated,
                ),
            },
    {
        let ghost q0 = self.queue@;
        let ghost s0 = self@.states;
        let m = self.queue.remove(0);
        assert(self.queue@ =~= q0.drop_first());
        match &m {
            Message::NewJob(j) => {
                let ghost jj = *j;
                self.delivered = Ghost(self.delivered@.push(jj));
                assert(self@.submitted =~= self@.delivered + jobs_of(self@.queue));
                proof {
                    if stopped_count(s0) > 0 {
                        assert(jobs_of(q0).len() > 0);
                    }
                }
            },
            Message::Terminate => {
                proof {
                    assert forall|k: int| 0 <= k < q0.len() implies (#[trigger] q0[k]) is Terminate by {
                        if k > 0 {
                            assert(q0[0] is Terminate);
                        }
                    }
                    assert forall|k: int| 0 <= k < self.queue@.len() implies (
                    #[trigger] self.queue@[k]) is Terminate by {
                        assert(q0[k + 1] is Terminate);
                    }
                    lemma_only_terminates(self.queue@);
                    lemma_only_terminates(q0);
                    lemma_stopped_update(s0, id as int, WorkerState::Terminated);
                }
                self.workers[id] = Worker { id, state: WorkerState::Terminated };
                assert(self@.states =~= s0.update(id as int, WorkerState::Terminated));
                assert(self@.submitted =~= self@.delivered + jobs_of(self@.queue));
            },
        }
        m
    }

    /// The state of worker `id`.
    pub fn worker_state(&self, id: usize) -> (r: WorkerState)
        requires
            id < self@.states.len(),
        ensures
            r == self@.states[id as int],
    {
        self.workers[id].state
    }

    /// Whether the terminate signals have been sent.
    pub fn is_shutting_down(&self) -> (r: bool)
        ensures
            r == self@.shutting_down,
    {
        self.shutting_down
    }

    /// Takes the thread handle of a stopped worker, once: `true` if the
    /// worker had not been joined yet, `false` if it had. The worker is
    /// `Joined` afterwards.
    pub fn take_thread(&mut self, id: usize) -> (r: bool)
        requires
            old(self).wf(),
            id < old(self)@.states.len(),
            old(self)@.states[id as int] != WorkerState::Running,
        ensures
            final(self).wf(),
            r == (old(self)@.states[id as int] == WorkerState::Terminated),
            final(self)@.states == old(self)@.states.update(id as int, WorkerState::Joined),
            final(self)@.queue == old(self)@.queue,
            final(self)@.shutting_down == old(self)@.shutting_down,
            final(self)@.submitted == old(self)@.submitted,
            final(self)@.delivered == old(self)@.delivered,
    {
        let ghost s0 = self@.states;
        let r = self.workers[id].state == WorkerState::Terminated;
        proof {
            lemma_stopped_update(s0, id as int, WorkerState::Joined);
        }
        self.workers[id] = Worker { id, state: WorkerState::Joined };
        assert(self@.states =~= s0.update(id as int, WorkerState::Joined));
        r
    }
}

/// Jobs are handed to workers in submission order, each at most once: the
/// delivered jobs are a prefix of the submitted ones, and what follows that
/// prefix is exactly the jobs still queued.
pub proof fn lemma_delivered_in_order<J>(pool: &ThreadPool<J>)
    requires
        pool.wf(),
    ensures
        pool@.delivered.len() <= pool@.submitted.len(),
        pool@.delivered == pool@.submitted.take(pool@.delivered.len() as int),
        jobs_of(pool@.queue) == pool@.submitted.skip(pool@.delivered.len() as int),
{
    let m = pool@;
    assert(m.delivered =~= m.submitted.take(m.delivered.len() as int));
    assert(jobs_of(m.queue) =~= m.submitted.skip(m.delivered.len() as int));
}

/// From shutdown on, terminate signals match workers one for one: each worker
/// has either taken exactly one signal and stopped, or still has exactly one
/// queued for it; no signal is ever left over and none is missing.
pub proof fn lemma_one_signal_per_worker<J>(pool: &ThreadPool<J>)
    requires
        pool.wf(),
        pool@.shutting_down,
    ensures
        terminates_in(pool@.queue) + stopped_count(pool@.states) == pool@.states.len(),
{
}

/// Once every worker has stopped, teardown has run to its end: every job
/// submitted was handed to a worker exactly once, and no message, neither a
/// job nor a terminate signal, is left in the queue.
pub proof fn lemma_teardown_complete<J>(pool: &ThreadPool<J>)
    requires
        pool.wf(),
        forall|i: int| 0 <= i < pool@.states.len() ==> pool@.states[i] != WorkerState::Running,
    ensures
        pool@.shutting_down,
        pool@.queue.len() == 0,
        pool@.delivered == pool@.submitted,
{
    let m = pool@;
    lemma_stopped_all(m.states);
    lemma_queue_len(m.queue);
    assert(jobs_of(m.queue) =~= Seq::<J>::empty());
    assert(m.submitted =~= m.delivered);
}

} // verus!
