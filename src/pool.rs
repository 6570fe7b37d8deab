use vstd::prelude::*;
use std::collections::VecDeque;
use vstd::set_lib::{lemma_int_range, set_int_range};

verus! {

/// Why a pool could not be built.
#[derive(Clone, Copy, Debug, PartialEq, Eq, Structural)]
pub enum PoolError {
    /// A pool needs at least one worker.
    ZeroSize,
}

/// Where a worker stands in its loop.
#[derive(Clone, Copy, Debug, PartialEq, Eq, Structural)]
pub enum WorkerState {
    /// Blocked on the queue, ready to take the next entry.
    Waiting,
    /// Running a job it took from the queue.
    Executing,
    /// Took its stop marker; its loop has ended.
    Terminated,
}

/// An entry of the work queue.
pub enum Message<J> {
    NewJob(J),
    Terminate,
}

/// What a waiting worker is to do after looking at the queue.
pub enum Step<J> {
    /// Run this job, then report back with `finish`.
    Run(J),
    /// The worker's stop marker came: leave the loop.
    Exit,
    /// The queue is empty: keep waiting.
    Idle,
}

/// Queue entries for `jobs`, in the same order.
pub open spec fn job_entries<J>(jobs: Seq<J>) -> Seq<Message<J>> {
    jobs.map_values(|j: J| Message::NewJob(j))
}

/// `n` stop markers.
pub open spec fn stop_entries<J>(n: nat) -> Seq<Message<J>> {
    Seq::new(n, |i: int| Message::Terminate)
}

/// Number of workers in `ws` whose loop has ended.
pub open spec fn count_exited(ws: Seq<WorkerState>) -> nat
    decreases ws.len(),
{
    if ws.len() == 0 {
        0
    } else {
        count_exited(ws.drop_last()) + if ws.last() == WorkerState::Terminated {
            1nat
        } else {
            0nat
        }
    }
}

/// The abstract state of a pool, with the history that its guarantees speak of.
pub struct PoolModel<J> {
    /// One state per worker; worker ids are the indices.
    pub workers: Seq<WorkerState>,
    /// Teardown has begun: the stop markers are queued.
    pub stopping: bool,
    /// Every job ever submitted, in order of submission.
    pub submitted: Seq<J>,
    /// `taken[k]` is the worker that dequeued `submitted[k]`.
    pub taken: Seq<nat>,
    /// Stop markers still in the queue.
    pub markers: nat,
    /// Per worker: the index of the job it runs, or -1.
    pub current: Seq<int>,
    /// Indices of the jobs that ran to completion, in order of completion.
    pub completed: Seq<int>,
}

impl<J> PoolModel<J> {
    /// Number of workers.
    pub open spec fn size(self) -> nat {
        self.workers.len()
    }

    /// Submitted jobs that no worker has taken yet, oldest first.
    pub open spec fn pending(self) -> Seq<J> {
        self.submitted.subrange(self.taken.len() as int, self.submitted.len() as int)
    }

    /// The work queue: the pending jobs, then the stop markers.
    pub open spec fn queue(self) -> Seq<Message<J>> {
        job_entries(self.pending()) + stop_entries(self.markers)
    }

    /// Every worker has ended its loop.
    pub open spec fn all_exited(self) -> bool {
        forall|w: int| 0 <= w < self.size() ==> self.workers[w] == WorkerState::Terminated
    }

    /// A pool of `n` waiting workers, before any submission.
    pub open spec fn initial(n: nat) -> PoolModel<J> {
        PoolModel {
            workers: Seq::new(n, |i: int| WorkerState::Waiting),
            stopping: false,
            submitted: Seq::empty(),
            taken: Seq::empty(),
            markers: 0,
            current: Seq::new(n, |i: int| -1int),
            completed: Seq::empty(),
        }
    }

    /// `job` joins the back of the queue.
    pub open spec fn submit(self, job: J) -> PoolModel<J> {
        PoolModel { submitted: self.submitted.push(job), ..self }
    }

    /// Worker `w` takes the front entry of the queue, if any.
    pub open spec fn receive(self, w: nat) -> (PoolModel<J>, Step<J>) {
        if self.taken.len() < self.submitted.len() {
            (
                PoolModel {
                    workers: self.workers.update(w as int, WorkerState::Executing),
                    taken: self.taken.push(w),
                    current: self.current.update(w as int, self.taken.len() as int),
                    ..self
                },
                Step::Run(self.submitted[self.taken.len() as int]),
            )
        } else if self.markers > 0 {
            (
                PoolModel {
                    workers: self.workers.update(w as int, WorkerState::Terminated),
                    markers: (self.markers - 1) as nat,
                    ..self
                },
                Step::Exit,
            )
        } else {
            (self, Step::Idle)
        }
    }

    /// Worker `w` is done with its job.
    pub open spec fn finish(self, w: nat) -> PoolModel<J> {
        PoolModel {
            workers: self.workers.update(w as int, WorkerState::Waiting),
            current: self.current.update(w as int, -1int),
            completed: self.completed.push(self.current[w as int]),
            ..self
        }
    }

    /// Teardown begins: one stop marker per worker goes behind the pending jobs.
    pub open spec fn shut_down(self) -> PoolModel<J> {
        PoolModel { stopping: true, markers: self.size(), ..self }
    }

    /// What holds of every state that the operations reach.
    pub open spec fn inv(self) -> bool {
        &&& self.size() >= 1
        &&& self.current.len() == self.size()
        &&& self.taken.len() <= self.submitted.len()
        &&& !self.stopping ==> self.markers == 0 && count_exited(self.workers) == 0
        &&& self.stopping ==> self.markers + count_exited(self.workers) == self.size()
        &&& forall|w: int|
            0 <= w < self.size() && #[trigger] self.workers[w] == WorkerState::Terminated
                ==> self.taken.len() == self.submitted.len()
        &&& forall|k: int| 0 <= k < self.taken.len() ==> #[trigger] self.taken[k] < self.size()
        &&& forall|w: int|
            0 <= w < self.size() ==> ((#[trigger] self.workers[w] == WorkerState::Executing)
                == (self.current[w] >= 0))
        &&& forall|w: int|
            0 <= w < self.size() && #[trigger] self.workers[w] == WorkerState::Executing ==> {
                &&& self.current[w] < self.taken.len()
                &&& self.taken[self.current[w]] == w
            }
        &&& forall|i: int|
            0 <= i < self.completed.len() ==> 0 <= #[trigger] self.completed[i]
                < self.taken.len()
        &&& self.completed.no_duplicates()
        &&& forall|k: int|
            0 <= k < self.taken.len() ==> (#[trigger] self.completed.contains(k) <==> !(
            self.workers[self.taken[k] as int] == WorkerState::Executing
                && self.current[self.taken[k] as int] == k))
        &&& self.size() == 1 ==> forall|i: int|
            0 <= i < self.completed.len() ==> #[trigger] self.completed[i] == i
    }
}

/// Changing one worker's state moves the count of ended loops by the
/// difference between the two states.
pub proof fn lemma_count_update(ws: Seq<WorkerState>, i: int, s: WorkerState)
    requires
        0 <= i < ws.len(),
    ensures
        count_exited(ws.update(i, s)) + (if ws[i] == WorkerState::Terminated {
            1int
        } else {
            0int
        }) == count_exited(ws) + (if s == WorkerState::Terminated {
            1int
        } else {
            0int
        }),
    decreases ws.len(),
{
    if i == ws.len() - 1 {
        assert(ws.update(i, s).drop_last() =~= ws.drop_last());
    } else {
        assert(ws.update(i, s).drop_last() =~= ws.drop_last().update(i, s));
        lemma_count_update(ws.drop_last(), i, s);
    }
}

/// The count of ended loops is zero exactly when no loop has ended, and
/// reaches the number of workers exactly when every loop has ended.
pub proof fn lemma_count_bounds(ws: Seq<WorkerState>)
    ensures
        count_exited(ws) <= ws.len(),
        count_exited(ws) == 0 <==> forall|i: int|
            0 <= i < ws.len() ==> #[trigger] ws[i] != WorkerState::Terminated,
        count_exited(ws) == ws.len() <==> forall|i: int|
            0 <= i < ws.len() ==> #[trigger] ws[i] == WorkerState::Terminated,
    decreases ws.len(),
{
    if ws.len() > 0 {
        lemma_count_bounds(ws.drop_last());
        assert forall|i: int| 0 <= i < ws.len() - 1 implies ws.drop_last()[i] == ws[i] by {}
        if count_exited(ws) == 0 {
            assert forall|i: int| 0 <= i < ws.len() implies #[trigger] ws[i]
                != WorkerState::Terminated by {
                if i < ws.len() - 1 {
                    assert(ws.drop_last()[i] != WorkerState::Terminated);
                }
            }
        }
        if count_exited(ws) == ws.len() {
            assert forall|i: int| 0 <= i < ws.len() implies #[trigger] ws[i]
                == WorkerState::Terminated by {
                if i < ws.len() - 1 {
                    assert(ws.drop_last()[i] == WorkerState::Terminated);
                }
            }
        }
    }
}

/// A fresh pool of `n >= 1` workers satisfies the invariant.
pub proof fn lemma_initial_inv<J>(n: nat)
    requires
        n >= 1,
    ensures
        PoolModel::<J>::initial(n).inv(),
{
    let m = PoolModel::<J>::initial(n);
    lemma_count_bounds(m.workers);
    assert(m.completed.no_duplicates());
}

/// Submitting before teardown keeps the invariant.
pub proof fn lemma_submit_inv<J>(m: PoolModel<J>, job: J)
    requires
        m.inv(),
        !m.stopping,
    ensures
        m.submit(job).inv(),
{
    lemma_count_bounds(m.workers);
    let m2 = m.submit(job);
    assert forall|w: int| 0 <= w < m2.size() && #[trigger] m2.workers[w]
        == WorkerState::Terminated implies m2.taken.len() == m2.submitted.len() by {
        assert(m.workers[w] != WorkerState::Terminated);
    }
}

/// A waiting worker that looks at the queue keeps the invariant.
pub proof fn lemma_receive_inv<J>(m: PoolModel<J>, w: nat)
    requires
        m.inv(),
        w < m.size(),
        m.workers[w as int] == WorkerState::Waiting,
    ensures
        m.receive(w).0.inv(),
{
    let m2 = m.receive(w).0;
    if m.taken.len() < m.submitted.len() {
        lemma_count_update(m.workers, w as int, WorkerState::Executing);
        let t = m.taken.len() as int;
        assert forall|k: int| 0 <= k < m2.taken.len() implies #[trigger] m2.taken[k]
            < m2.size() by {
            if k < t {
                assert(m.taken[k] < m.size());
            }
        }
        assert forall|v: int| 0 <= v < m2.size() && #[trigger] m2.workers[v]
            == WorkerState::Terminated implies m2.taken.len() == m2.submitted.len() by {
            assert(m.workers[v] == WorkerState::Terminated);
        }
        assert forall|v: int| 0 <= v < m2.size() && #[trigger] m2.workers[v]
            == WorkerState::Executing implies {
            &&& m2.current[v] < m2.taken.len()
            &&& m2.taken[m2.current[v]] == v
        } by {
            if v != w {
                assert(m.workers[v] == WorkerState::Executing);
            }
        }
        assert forall|i: int| 0 <= i < m2.completed.len() implies 0 <= #[trigger] m2.completed[i]
            < m2.taken.len() by {
            assert(0 <= m.completed[i] < m.taken.len());
        }
        assert forall|k: int| 0 <= k < m2.taken.len() implies (#[trigger] m2.completed.contains(
            k) <==> !(m2.workers[m2.taken[k] as int] == WorkerState::Executing
            && m2.current[m2.taken[k] as int] == k)) by {
            if k < t {
                assert(m.completed.contains(k) <==> !(m.workers[m.taken[k] as int]
                    == WorkerState::Executing && m.current[m.taken[k] as int] == k));
                assert(m2.taken[k] == m.taken[k]);
            } else {
                if m.completed.contains(k) {
                    let i = choose|i: int| 0 <= i < m.completed.len() && m.completed[i] == k;
                    assert(0 <= m.completed[i] < m.taken.len());
                }
            }
        }
    } else if m.markers > 0 {
        lemma_count_update(m.workers, w as int, WorkerState::Terminated);
        assert forall|v: int| 0 <= v < m2.size() && #[trigger] m2.workers[v]
            == WorkerState::Executing implies {
            &&& m2.current[v] < m2.taken.len()
            &&& m2.taken[m2.current[v]] == v
        } by {
            assert(m.workers[v] == WorkerState::Executing);
        }
        assert forall|k: int| 0 <= k < m2.taken.len() implies (#[trigger] m2.completed.contains(
            k) <==> !(m2.workers[m2.taken[k] as int] == WorkerState::Executing
            && m2.current[m2.taken[k] as int] == k)) by {
            assert(m.taken[k] < m.size());
            assert(m.completed.contains(k) <==> !(m.workers[m.taken[k] as int]
                == WorkerState::Executing && m.current[m.taken[k] as int] == k));
        }
    }
}

/// A worker that finishes its job keeps the invariant.
pub proof fn lemma_finish_inv<J>(m: PoolModel<J>, w: nat)
    requires
        m.inv(),
        w < m.size(),
        m.workers[w as int] == WorkerState::Executing,
    ensures
        m.finish(w).inv(),
{
    let m2 = m.finish(w);
    let cur = m.current[w as int];
    lemma_count_update(m.workers, w as int, WorkerState::Waiting);
    assert(m.taken[cur] == w);
    assert(!m.completed.contains(cur));
    assert forall|v: int| 0 <= v < m2.size() && #[trigger] m2.workers[v]
        == WorkerState::Terminated implies m2.taken.len() == m2.submitted.len() by {
        assert(m.workers[v] == WorkerState::Terminated);
    }
    assert forall|v: int| 0 <= v < m2.size() && #[trigger] m2.workers[v]
        == WorkerState::Executing implies {
        &&& m2.current[v] < m2.taken.len()
        &&& m2.taken[m2.current[v]] == v
    } by {
        assert(m.workers[v] == WorkerState::Executing);
    }
    assert forall|i: int| 0 <= i < m2.completed.len() implies 0 <= #[trigger] m2.completed[i]
        < m2.taken.len() by {
        if i < m.completed.len() {
            assert(0 <= m.completed[i] < m.taken.len());
        }
    }
    assert forall|i: int, j: int|
        0 <= i < m2.completed.len() && 0 <= j < m2.completed.len() && i != j implies m2.completed[i]
        != m2.completed[j] by {
        if i < m.completed.len() && j < m.completed.len() {
        } else if i < m.completed.len() {
            assert(m.completed.contains(m.completed[i]));
        } else {
            assert(m.completed.contains(m.completed[j]));
        }
    }
    assert forall|k: int| 0 <= k < m2.taken.len() implies (#[trigger] m2.completed.contains(k)
        <==> !(m2.workers[m2.taken[k] as int] == WorkerState::Executing
        && m2.current[m2.taken[k] as int] == k)) by {
        assert(m.taken[k] < m.size());
        assert(m.completed.contains(k) <==> !(m.workers[m.taken[k] as int]
            == WorkerState::Executing && m.current[m.taken[k] as int] == k));
        if k == cur {
            assert(m2.completed[m.completed.len() as int] == k);
        } else if m2.completed.contains(k) {
            let i = choose|i: int| 0 <= i < m2.completed.len() && m2.completed[i] == k;
            assert(i < m.completed.len());
            assert(m.completed[i] == k);
        } else if m.completed.contains(k) {
            let i = choose|i: int| 0 <= i < m.completed.len() && m.completed[i] == k;
            assert(m2.completed[i] == k);
        }
    }
    if m.size() == 1 {
        let c = m.completed.len() as int;
        assert(w == 0);
        if cur < c {
            assert(m.completed[cur] == cur);
        }
        if cur > c {
            assert(m.taken[c] < 1);
            assert(m.completed.contains(c));
            let i = choose|i: int| 0 <= i < m.completed.len() && m.completed[i] == c;
            assert(m.completed[i] == i);
        }
        assert(cur == c);
        assert forall|i: int| 0 <= i < m2.completed.len() implies #[trigger] m2.completed[i]
            == i by {
            if i < c {
                assert(m.completed[i] == i);
            }
        }
    }
}

/// Beginning teardown keeps the invariant.
pub proof fn lemma_shut_down_inv<J>(m: PoolModel<J>)
    requires
        m.inv(),
        !m.stopping,
    ensures
        m.shut_down().inv(),
{
}

/// A fixed set of workers that take jobs from one shared FIFO queue.
///
/// This is the pool's bookkeeping: who may dequeue what, and when a worker
/// stops. Each operation is one atomic step; the caller runs the workers'
/// loops and holds the pool under one lock, which gives the mutual exclusion
/// on dequeue. Teardown queues its stop markers behind every pending job, so
/// all jobs submitted before teardown still run before the workers stop.
pub struct WorkerPool<J> {
    queue: VecDeque<Message<J>>,
    workers: Vec<WorkerState>,
    stopping: bool,
    model: Ghost<PoolModel<J>>,
}

impl<J> View for WorkerPool<J> {
    type V = PoolModel<J>;

    closed spec fn view(&self) -> PoolModel<J> {
        self.model@
    }
}

impl<J> WorkerPool<J> {
    /// The pool's fields agree with its model, and the model's invariant holds.
    pub closed spec fn wf(&self) -> bool {
        &&& self.model@.inv()
        &&& self.queue@ == self.model@.queue()
        &&& self.workers@ == self.model@.workers
        &&& self.stopping == self.model@.stopping
    }

    /// Builds a pool of `size` waiting workers and an empty queue; a size of
    /// zero is a configuration error and builds nothing.
    pub fn new(size: usize) -> (r: Result<WorkerPool<J>, PoolError>)
        ensures
            match r {
                Ok(p) => size > 0 && p.wf() && p@ == PoolModel::<J>::initial(size as nat),
                Err(e) => size == 0 && e == PoolError::ZeroSize,
            },
    {
        if size == 0 {
            return Err(PoolError::ZeroSize);
        }
        let mut workers: Vec<WorkerState> = Vec::new();
        let mut i: usize = 0;
        while i < size
            invariant
                i <= size,
                workers@ == Seq::new(i as nat, |k: int| WorkerState::Waiting),
            decreases size - i,
        {
            workers.push(WorkerState::Waiting);
            i = i + 1;
            assert(workers@ =~= Seq::new(i as nat, |k: int| WorkerState::Waiting));
        }
        let ghost m = PoolModel::<J>::initial(size as nat);
        proof {
            lemma_initial_inv::<J>(size as nat);
            assert(m.queue() =~= Seq::<Message<J>>::empty());
        }
        Ok(WorkerPool { queue: VecDeque::new(), workers, stopping: false, model: Ghost(m) })
    }

    /// Number of workers.
    pub fn size(&self) -> (r: usize)
        requires
            self.wf(),
        ensures
            r == self@.size(),
    {
        self.workers.len()
    }

    /// Whether teardown has begun.
    pub fn is_stopping(&self) -> (r: bool)
        requires
            self.wf(),
        ensures
            r == self@.stopping,
    {
        self.stopping
    }

    /// Number of entries in the queue, jobs and stop markers together.
    pub fn queued(&self) -> (r: usize)
        requires
            self.wf(),
        ensures
            r == self@.queue().len(),
    {
        self.queue.len()
    }

    /// Where worker `worker` stands.
    pub fn worker_state(&self, worker: usize) -> (r: WorkerState)
        requires
            self.wf(),
            worker < self@.size(),
        ensures
            r == self@.workers[worker as int],
    {
        self.workers[worker]
    }

    /// Whether every worker has taken its stop marker.
    pub fn all_exited(&self) -> (r: bool)
        requires
            self.wf(),
        ensures
            r == self@.all_exited(),
    {
        let mut i: usize = 0;
        while i < self.workers.len()
            invariant
                self.wf(),
                i <= self.workers@.len(),
                forall|k: int| 0 <= k < i ==> self.workers@[k] == WorkerState::Terminated,
            decreases self.workers@.len() - i,
        {
            if self.workers[i] != WorkerState::Terminated {
                return false;
            }
            i = i + 1;
        }
        true
    }

    /// Puts `job` at the back of the queue. Jobs may only be submitted
    /// before teardown begins.
    pub fn execute(&mut self, job: J)
        requires
            old(self).wf(),
            !old(self)@.stopping,
        ensures
            final(self).wf(),
            final(self)@ == old(self)@.submit(job),
    {
        let ghost m = self.model@;
        proof {
            lemma_submit_inv(m, job);
            assert(m.markers == 0);
            assert(m.submit(job).pending() =~= m.pending().push(job));
            assert(m.submit(job).queue() =~= m.queue().push(Message::NewJob(job)));
        }
        self.model = Ghost(m.submit(job));
        self.queue.push_back(Message::NewJob(job));
    }

    /// Waiting worker `worker` takes the front entry of the queue: a job to
    /// run, its stop marker, or nothing when the queue is empty.
    pub fn receive(&mut self, worker: usize) -> (r: Step<J>)
        requires
            old(self).wf(),
            worker < old(self)@.size(),
            old(self)@.workers[worker as int] == WorkerState::Waiting,
        ensures
            final(self).wf(),
            (final(self)@, r) == old(self)@.receive(worker as nat),
    {
        let ghost m = self.model@;
        proof {
            lemma_receive_inv(m, worker as nat);
        }
        let ghost m2 = m.receive(worker as nat).0;
        match self.queue.pop_front() {
            Some(Message::NewJob(job)) => {
                proof {
                    assert(m.queue()[0] == Message::NewJob(job));
                    if m.pending().len() == 0 {
                        assert(m.queue()[0] == stop_entries::<J>(m.markers)[0]);
                    }
                    assert(m2.queue() =~= m.queue().subrange(1, m.queue().len() as int));
                }
                self.workers.set(worker, WorkerState::Executing);
                self.model = Ghost(m2);
                Step::Run(job)
            },
            Some(Message::Terminate) => {
                proof {
                    if m.pending().len() > 0 {
                        assert(m.queue()[0] == job_entries(m.pending())[0]);
                    }
                    assert(m.pending().len() == 0);
                    assert(m2.queue() =~= m.queue().subrange(1, m.queue().len() as int));
                }
                self.workers.set(worker, WorkerState::Terminated);
                self.model = Ghost(m2);
                Step::Exit
            },
            None => {
                Step::Idle
            },
        }
    }

    /// Worker `worker` has run its job to the end and waits again.
    pub fn finish(&mut self, worker: usize)
        requires
            old(self).wf(),
            worker < old(self)@.size(),
            old(self)@.workers[worker as int] == WorkerState::Executing,
        ensures
            final(self).wf(),
            final(self)@ == old(self)@.finish(worker as nat),
    {
        let ghost m = self.model@;
        proof {
            lemma_finish_inv(m, worker as nat);
        }
        self.workers.set(worker, WorkerState::Waiting);
        self.model = Ghost(m.finish(worker as nat));
    }

    /// Begins teardown: queues one stop marker per worker, behind the pending
    /// jobs. Each worker leaves its loop when it takes a marker.
    pub fn shut_down(&mut self)
        requires
            old(self).wf(),
            !old(self)@.stopping,
        ensures
            final(self).wf(),
            final(self)@ == old(self)@.shut_down(),
    {
        let ghost m = self.model@;
        proof {
            lemma_shut_down_inv(m);
        }
        let n = self.workers.len();
        let mut i: usize = 0;
        while i < n
            invariant
                n == m.size(),
                i <= n,
                self.workers@ == m.workers,
                self.model@ == m,
                !self.stopping,
                m.inv(),
                m.shut_down().inv(),
                self.queue@ == m.queue() + stop_entries::<J>(i as nat),
            decreases n - i,
        {
            self.queue.push_back(Message::Terminate);
            i = i + 1;
            proof {
                assert(self.queue@ =~= m.queue() + stop_entries::<J>(i as nat));
            }
        }
        proof {
            assert(m.markers == 0);
            assert(m.shut_down().queue() =~= m.queue() + stop_entries::<J>(n as nat));
        }
        self.stopping = true;
        self.model = Ghost(m.shut_down());
    }
}

/// A new pool of `n >= 1` workers has exactly `n` workers, all waiting, and
/// whichever of them looks at the queue first after a submission is handed
/// that job.
pub proof fn lemma_every_worker_can_run<J>(n: nat, job: J, w: nat)
    requires
        n >= 1,
        w < n,
    ensures
        PoolModel::<J>::initial(n).size() == n,
        forall|v: int|
            0 <= v < n ==> #[trigger] PoolModel::<J>::initial(n).workers[v]
                == WorkerState::Waiting,
        PoolModel::<J>::initial(n).submit(job).receive(w).1 == Step::Run(job),
        PoolModel::<J>::initial(n).submit(job).receive(w).0.workers[w as int]
            == WorkerState::Executing,
{
}

/// Jobs leave the queue one at a time, in submission order: a waiting worker
/// that looks at the queue gets the oldest pending job and is recorded as the
/// one worker that took it; with no job pending, no job is handed out.
pub proof fn lemma_dispatch_in_order<J>(m: PoolModel<J>, w: nat)
    requires
        m.inv(),
        w < m.size(),
        m.workers[w as int] == WorkerState::Waiting,
    ensures
        m.receive(w).0.submitted == m.submitted,
        m.pending().len() > 0 ==> {
            &&& m.receive(w).1 == Step::Run(m.pending()[0])
            &&& m.receive(w).0.taken == m.taken.push(w)
        },
        m.pending().len() == 0 ==> {
            &&& m.receive(w).1 !is Run
            &&& m.receive(w).0.taken == m.taken
        },
{
}

/// In every reachable state, each dequeued job was taken by exactly one
/// worker, runs on that worker alone, and is either running or completed,
/// never both and never twice.
pub proof fn lemma_each_job_once<J>(m: PoolModel<J>)
    requires
        m.inv(),
    ensures
        forall|k: int| 0 <= k < m.taken.len() ==> #[trigger] m.taken[k] < m.size(),
        forall|v: int|
            0 <= v < m.size() && #[trigger] m.workers[v] == WorkerState::Executing ==> {
                &&& 0 <= m.current[v] < m.taken.len()
                &&& m.taken[m.current[v]] == v
            },
        forall|k: int|
            0 <= k < m.taken.len() ==> (#[trigger] m.completed.contains(k) <==> !(
            m.workers[m.taken[k] as int] == WorkerState::Executing
                && m.current[m.taken[k] as int] == k)),
        m.completed.no_duplicates(),
{
}

/// Once teardown has begun and no job is pending, a waiting worker that looks
/// at the queue takes its stop marker and its loop ends.
pub proof fn lemma_teardown_stops_worker<J>(m: PoolModel<J>, w: nat)
    requires
        m.inv(),
        m.stopping,
        m.pending().len() == 0,
        w < m.size(),
        m.workers[w as int] == WorkerState::Waiting,
    ensures
        m.receive(w).1 == Step::<J>::Exit,
        m.receive(w).0.workers[w as int] == WorkerState::Terminated,
{
    lemma_count_update(m.workers, w as int, WorkerState::Terminated);
    lemma_count_bounds(m.workers.update(w as int, WorkerState::Terminated));
}

/// When every worker has ended its loop, teardown has begun, the queue is
/// empty and no worker waits or runs a job: nothing can run any more.
pub proof fn lemma_exited_pool_is_idle<J>(m: PoolModel<J>)
    requires
        m.inv(),
        m.all_exited(),
    ensures
        m.stopping,
        m.queue().len() == 0,
        forall|w: int|
            0 <= w < m.size() ==> #[trigger] m.workers[w] != WorkerState::Waiting
                && m.workers[w] != WorkerState::Executing,
{
    lemma_count_bounds(m.workers);
    assert(m.workers[0] == WorkerState::Terminated);
}

/// When every worker has ended its loop, every submitted job ran exactly once:
/// the completions are the submitted jobs' indices, each once, and every job
/// was taken by a worker whose id is below the pool's size.
pub proof fn lemma_teardown_completes_all<J>(m: PoolModel<J>)
    requires
        m.inv(),
        m.all_exited(),
    ensures
        m.taken.len() == m.submitted.len(),
        forall|k: int| 0 <= k < m.taken.len() ==> #[trigger] m.taken[k] < m.size(),
        m.completed.no_duplicates(),
        m.completed.len() == m.submitted.len(),
        forall|k: int| 0 <= k < m.submitted.len() ==> #[trigger] m.completed.contains(k),
        forall|i: int| 0 <= i < m.completed.len() ==> 0 <= #[trigger] m.completed[i]
            < m.submitted.len(),
{
    lemma_count_bounds(m.workers);
    assert(m.workers[0] == WorkerState::Terminated);
    let n = m.submitted.len() as int;
    assert forall|k: int| 0 <= k < n implies #[trigger] m.completed.contains(k) by {
        assert(m.taken[k] < m.size());
        assert(m.workers[m.taken[k] as int] == WorkerState::Terminated);
    }
    assert(m.completed.to_set() =~= set_int_range(0, n)) by {
        assert forall|x: int| m.completed.to_set().contains(x) implies 0 <= x < n by {
            let i = choose|i: int| 0 <= i < m.completed.len() && m.completed[i] == x;
            assert(0 <= m.completed[i] < m.taken.len());
        }
        assert forall|x: int| 0 <= x < n implies m.completed.to_set().contains(x) by {
            assert(m.completed.contains(x));
        }
    }
    lemma_int_range(0, n);
    m.completed.unique_seq_to_set();
}

/// With a single worker, jobs complete in the order they were submitted.
pub proof fn lemma_single_worker_in_order<J>(m: PoolModel<J>)
    requires
        m.inv(),
        m.size() == 1,
    ensures
        forall|i: int| 0 <= i < m.completed.len() ==> #[trigger] m.completed[i] == i,
{
}

} // verus!
