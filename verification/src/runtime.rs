//! Scheduling state of the execution runtime.
//!
//! A fixed pool of workers serves a FIFO queue of tasks. The shared state —
//! the queue, the per-task phases and the idle-worker registry — lives in
//! [`Runtime`]; the process that owns it holds it behind one lock and calls
//! a transition function for every decision: submitting a task, fetching
//! the next task or parking, and reporting an outcome. Each submission
//! returns a [`JoinHandle`], a single-resolution future for that task's
//! outcome.

use vstd::prelude::*;
use crate::runner::ExecutionError;

verus! {

/// The pool could not determine or allocate its worker count at startup.
#[derive(Clone, Copy, Debug, PartialEq, Eq, Structural)]
pub struct PoolInitializationError;

/// The submitted payload could not be serialized.
#[derive(Clone, Copy, Debug, PartialEq, Eq, Structural)]
pub struct SubmissionError;

/// What a task's result handle resolves to.
#[derive(Debug)]
pub enum Resolution {
    /// The execution succeeded (the child exited with status zero).
    Success,
    /// The execution failed with a typed error.
    Failure(ExecutionError),
    /// The completion sink was destroyed before an outcome was sent.
    Abandoned,
}

impl Clone for Resolution {
    fn clone(&self) -> (r: Self)
        ensures
            r == *self,
    {
        match self {
            Resolution::Success => Resolution::Success,
            Resolution::Failure(e) => Resolution::Failure(e.clone()),
            Resolution::Abandoned => Resolution::Abandoned,
        }
    }
}

/// One unit of work: an executable path and the serialized notification
/// payload handed to it as its sole argument.
#[derive(Debug)]
pub struct Task {
    pub task_id: usize,
    pub binary_path: String,
    pub payload: Vec<u8>,
}

/// The lifecycle of one task: queued, running on a worker, or finished
/// with its resolution.
#[derive(Debug)]
pub enum TaskPhase {
    Queued,
    Running,
    Finished(Resolution),
}

/// Mathematical model of one queued task.
pub ghost struct TaskModel {
    pub task_id: int,
    pub binary_path: Seq<char>,
    pub payload: Seq<u8>,
}

/// Mathematical model of the runtime: the pending queue in order, the
/// phase of every task ever submitted (indexed by task id), and one idle
/// flag per worker.
pub ghost struct RuntimeModel {
    pub queue: Seq<TaskModel>,
    pub phases: Seq<TaskPhase>,
    pub idle: Seq<bool>,
}

impl Task {
    /// Mathematical model of one submitted unit of work.
    pub open spec fn model(self) -> TaskModel {
        TaskModel {
            task_id: self.task_id as int,
            binary_path: self.binary_path@,
            payload: self.payload@,
        }
    }
}

/// Well-formedness of the runtime state: there is at least one worker;
/// queued entries carry ids of submitted tasks, in strictly increasing
/// submission order; and a task is in phase `Queued` exactly when the queue
/// holds it.
pub open spec fn runtime_wf(m: RuntimeModel) -> bool {
    &&& 1 <= m.idle.len()
    &&& forall|i: int|
        0 <= i < m.queue.len() ==> 0 <= (#[trigger] m.queue[i]).task_id < m.phases.len()
    &&& forall|i: int, j: int|
        0 <= i < j < m.queue.len() ==> (#[trigger] m.queue[i]).task_id < (
        #[trigger] m.queue[j]).task_id
    &&& forall|i: int| 0 <= i < m.queue.len() ==> m.phases[(#[trigger] m.queue[i]).task_id] is Queued
    &&& forall|id: int|
        0 <= id < m.phases.len() && (#[trigger] m.phases[id]) is Queued ==> exists|i: int|
            0 <= i < m.queue.len() && (#[trigger] m.queue[i]).task_id == id
}

/// The index of the last idle worker, if any worker is idle.
pub open spec fn last_idle(idle: Seq<bool>) -> Option<int>
    decreases idle.len(),
{
    if idle.len() == 0 {
        None
    } else if idle.last() {
        Some(idle.len() - 1)
    } else {
        last_idle(idle.drop_last())
    }
}

/// The runtime after one submission: the task is appended to the queue
/// tail with the next fresh id, and the chosen idle worker (if any) is
/// removed from the registry before it is resumed.
pub open spec fn spec_spawn(m: RuntimeModel, path: Seq<char>, payload: Seq<u8>) -> RuntimeModel {
    RuntimeModel {
        queue: m.queue.push(
            TaskModel { task_id: m.phases.len() as int, binary_path: path, payload },
        ),
        phases: m.phases.push(TaskPhase::Queued),
        idle: match last_idle(m.idle) {
            Some(w) => m.idle.update(w, false),
            None => m.idle,
        },
    }
}

/// The task a worker calling in would receive: the head of the queue.
pub open spec fn spec_next_task(m: RuntimeModel) -> Option<TaskModel> {
    if m.queue.len() > 0 {
        Some(m.queue[0])
    } else {
        None
    }
}

/// The runtime after worker `w` asks for work: either the head task is
/// dequeued and marked running, or — with an empty queue — the worker
/// registers itself idle.
pub open spec fn spec_worker_next(m: RuntimeModel, w: int) -> RuntimeModel {
    if m.queue.len() > 0 {
        RuntimeModel {
            queue: m.queue.skip(1),
            phases: m.phases.update(m.queue[0].task_id, TaskPhase::Running),
            idle: m.idle.update(w, false),
        }
    } else {
        RuntimeModel { queue: m.queue, phases: m.phases, idle: m.idle.update(w, true) }
    }
}

/// The runtime after a task's outcome is reported.
pub open spec fn spec_report(m: RuntimeModel, id: int, res: Resolution) -> RuntimeModel {
    RuntimeModel {
        queue: m.queue,
        phases: m.phases.update(id, TaskPhase::Finished(res)),
        idle: m.idle,
    }
}

/// A single-resolution handle for one task's outcome. It resolves exactly
/// once: polling consumes the resolution.
#[derive(Debug)]
pub struct JoinHandle {
    task_id: usize,
    resolved: bool,
}

impl JoinHandle {
    /// The id of the task this handle reports on.
    pub closed spec fn id(self) -> int {
        self.task_id as int
    }

    /// Whether the handle has already delivered its resolution.
    pub closed spec fn is_resolved(self) -> bool {
        self.resolved
    }

    /// The task id, for the process that routes outcomes to handles.
    pub fn task_id(&self) -> (r: usize)
        ensures
            r as int == self.id(),
    {
        self.task_id
    }

    /// Polls the runtime for the outcome: pending (`None`) until the task
    /// finishes, then its resolution, delivered exactly once.
    pub fn poll(&mut self, rt: &Runtime) -> (r: Option<Resolution>)
        requires
            !old(self).is_resolved(),
            0 <= old(self).id() < rt@.phases.len(),
        ensures
            final(self).id() == old(self).id(),
            r is Some <==> rt@.phases[old(self).id()] is Finished,
            final(self).is_resolved() <==> r is Some,
            r matches Some(res) ==> rt@.phases[old(self).id()] == TaskPhase::Finished(res),
    {
        match &rt.phases[self.task_id] {
            TaskPhase::Finished(res) => {
                self.resolved = true;
                Some(res.clone())
            },
            _ => None,
        }
    }
}

/// The shared scheduling state of the worker pool.
pub struct Runtime {
    queue: Vec<Task>,
    phases: Vec<TaskPhase>,
    idle: Vec<bool>,
}

impl View for Runtime {
    type V = RuntimeModel;

    closed spec fn view(&self) -> RuntimeModel {
        RuntimeModel {
            queue: self.queue@.map_values(|t: Task| t.model()),
            phases: self.phases@,
            idle: self.idle@,
        }
    }
}

impl Runtime {
    /// Well-formedness of the runtime state.
    pub open spec fn wf(self) -> bool {
        runtime_wf(self@)
    }

    /// A fresh runtime for a pool of `pool_size` workers, all initially
    /// awake; fails exactly when no worker could be allocated.
    pub fn new(pool_size: usize) -> (r: Result<Runtime, PoolInitializationError>)
        ensures
            r is Ok <==> pool_size > 0,
            r matches Ok(rt) ==> {
                &&& rt.wf()
                &&& rt@.queue == Seq::<TaskModel>::empty()
                &&& rt@.phases == Seq::<TaskPhase>::empty()
                &&& rt@.idle == Seq::new(pool_size as nat, |i: int| false)
            },
    {
        if pool_size == 0 {
            return Err(PoolInitializationError);
        }
        let mut idle: Vec<bool> = Vec::new();
        let mut i: usize = 0;
        while i < pool_size
            invariant
                i <= pool_size,
                idle@ == Seq::new(i as nat, |k: int| false),
            decreases pool_size - i,
        {
            idle.push(false);
            proof {
                assert(idle@ =~= Seq::new((i + 1) as nat, |k: int| false));
            }
            i = i + 1;
        }
        let rt = Runtime { queue: Vec::new(), phases: Vec::new(), idle };
        proof {
            assert(rt@.queue =~= Seq::<TaskModel>::empty());
        }
        Ok(rt)
    }

    /// The number of workers in the pool.
    pub fn pool_size(&self) -> (r: usize)
        ensures
            r as int == self@.idle.len(),
    {
        self.idle.len()
    }

    /// Pops one idle worker from the registry, to be resumed by the
    /// caller. The registry entry is cleared before the worker is resumed,
    /// so the same registration is never woken twice.
    fn wake(&mut self) -> (r: Option<usize>)
        ensures
            final(self)@.queue == old(self)@.queue,
            final(self)@.phases == old(self)@.phases,
            final(self)@.idle.len() == old(self)@.idle.len(),
            r matches Some(w) ==> last_idle(old(self)@.idle) == Some(w as int) && final(self)@.idle
                == old(self)@.idle.update(w as int, false),
            r is None ==> last_idle(old(self)@.idle) is None && final(self)@.idle == old(
                self,
            )@.idle,
    {
        let n = self.idle.len();
        let mut i: usize = n;
        proof {
            assert(old(self)@.idle.take(n as int) =~= old(self)@.idle);
        }
        while i > 0
            invariant
                *self == *old(self),
                i <= n,
                n == self.idle.len(),
                last_idle(self@.idle) == last_idle(self@.idle.take(i as int)),
            decreases i,
        {
            i = i - 1;
            proof {
                assert(self@.idle.take(i + 1).drop_last() =~= self@.idle.take(i as int));
                assert(self@.idle.take(i + 1).last() == self@.idle[i as int]);
            }
            if self.idle[i] {
                self.idle.set(i, false);
                return Some(i);
            }
        }
        proof {
            assert(self@.idle.take(0) =~= Seq::<bool>::empty());
        }
        None
    }

    /// Submits one task: appends it to the queue tail under a fresh id and
    /// picks one idle worker to resume. Returns the task's handle and the
    /// worker the caller must resume, if one was idle.
    pub fn spawn(&mut self, binary_path: String, payload: Vec<u8>) -> (r: (
        JoinHandle,
        Option<usize>,
    ))
        requires
            old(self).wf(),
            old(self)@.phases.len() < usize::MAX,
        ensures
            final(self).wf(),
            final(self)@ == spec_spawn(old(self)@, binary_path@, payload@),
            r.0.id() == old(self)@.phases.len(),
            !r.0.is_resolved(),
            r.1 matches Some(w) ==> last_idle(old(self)@.idle) == Some(w as int),
            r.1 is None ==> last_idle(old(self)@.idle) is None,
    {
        let task_id = self.phases.len();
        let task = Task { task_id, binary_path, payload };
        self.queue.push(task);
        self.phases.push(TaskPhase::Queued);
        let woken = self.wake();
        proof {
            assert(self@.queue =~= spec_spawn(old(self)@, binary_path@, payload@).queue);
            let m1 = self@;
            let m0 = old(self)@;
            assert forall|i: int, j: int| 0 <= i < j < m1.queue.len() implies (
            #[trigger] m1.queue[i]).task_id < (#[trigger] m1.queue[j]).task_id by {
                if j < m1.queue.len() - 1 {
                    assert(m0.queue[i] == m1.queue[i]);
                    assert(m0.queue[j] == m1.queue[j]);
                }
            }
            assert forall|id: int|
                0 <= id < m1.phases.len() && (#[trigger] m1.phases[id]) is Queued implies exists|
                i: int,
            |
                0 <= i < m1.queue.len() && (#[trigger] m1.queue[i]).task_id == id by {
                if id < m0.phases.len() {
                    let i = choose|i: int|
                        0 <= i < m0.queue.len() && (#[trigger] m0.queue[i]).task_id == id;
                    assert(m1.queue[i].task_id == id);
                } else {
                    assert(m1.queue[m1.queue.len() - 1].task_id == id);
                }
            }
        }
        (JoinHandle { task_id, resolved: false }, woken)
    }

    /// Submits a task whose payload serialization may have failed: a
    /// missing payload is surfaced immediately as a `SubmissionError` and
    /// nothing is enqueued.
    pub fn submit(&mut self, binary_path: String, payload: Option<Vec<u8>>) -> (r: Result<
        (JoinHandle, Option<usize>),
        SubmissionError,
    >)
        requires
            old(self).wf(),
            old(self)@.phases.len() < usize::MAX,
        ensures
            final(self).wf(),
            payload matches Some(p) ==> {
                &&& final(self)@ == spec_spawn(old(self)@, binary_path@, p@)
                &&& r matches Ok(h) && h.0.id() == old(self)@.phases.len() && !h.0.is_resolved()
            },
            payload is None ==> r is Err && final(self)@ == old(self)@,
    {
        match payload {
            Some(p) => Ok(self.spawn(binary_path, p)),
            None => Err(SubmissionError),
        }
    }

    /// Serves worker `w`'s request for work: dequeues the head task and
    /// marks it running, or — when the queue is empty — registers the
    /// worker idle, in which case the caller suspends it. A worker is only
    /// ever told to park when the queue was empty at that moment.
    pub fn worker_next(&mut self, w: usize) -> (r: Option<Task>)
        requires
            old(self).wf(),
            w < old(self)@.idle.len(),
        ensures
            final(self).wf(),
            final(self)@ == spec_worker_next(old(self)@, w as int),
            r matches Some(t) ==> spec_next_task(old(self)@) == Some(t.model()) && old(
                self,
            )@.phases[t.task_id as int] is Queued,
            r is None ==> old(self)@.queue.len() == 0 && final(self)@.idle[w as int],
    {
        if self.queue.len() > 0 {
            let task = self.queue.remove(0);
            proof {
                assert(old(self)@.queue[0].task_id < old(self)@.phases.len());
            }
            self.phases.set(task.task_id, TaskPhase::Running);
            self.idle.set(w, false);
            proof {
                let m0 = old(self)@;
                let m1 = self@;
                assert(m1.queue =~= m0.queue.skip(1));
                assert forall|i: int|
                    0 <= i < m1.queue.len() implies m1.phases[(
                #[trigger] m1.queue[i]).task_id] is Queued by {
                    assert(m1.queue[i] == m0.queue[i + 1]);
                    assert(m0.queue[0].task_id < m0.queue[i + 1].task_id);
                }
                assert forall|id: int|
                    0 <= id < m1.phases.len() && (#[trigger] m1.phases[id]) is Queued implies exists|
                    i: int,
                |
                    0 <= i < m1.queue.len() && (#[trigger] m1.queue[i]).task_id == id by {
                    let i = choose|i: int|
                        0 <= i < m0.queue.len() && (#[trigger] m0.queue[i]).task_id == id;
                    assert(i != 0);
                    assert(m1.queue[i - 1].task_id == id);
                }
            }
            Some(task)
        } else {
            self.idle.set(w, true);
            proof {
                let m0 = old(self)@;
                let m1 = self@;
                assert(m1.queue =~= m0.queue);
                assert forall|id: int|
                    0 <= id < m1.phases.len() && (#[trigger] m1.phases[id]) is Queued implies exists|
                    i: int,
                |
                    0 <= i < m1.queue.len() && (#[trigger] m1.queue[i]).task_id == id by {
                    let i = choose|i: int|
                        0 <= i < m0.queue.len() && (#[trigger] m0.queue[i]).task_id == id;
                    assert(m1.queue[i].task_id == id);
                }
            }
            None
        }
    }

    /// Records the outcome of a running task; its handle then resolves to
    /// exactly this resolution.
    pub fn report(&mut self, task_id: usize, outcome: Resolution)
        requires
            old(self).wf(),
            task_id < old(self)@.phases.len(),
            old(self)@.phases[task_id as int] is Running,
        ensures
            final(self).wf(),
            final(self)@ == spec_report(old(self)@, task_id as int, outcome),
    {
        self.phases.set(task_id, TaskPhase::Finished(outcome));
        proof {
            let m0 = old(self)@;
            let m1 = self@;
            assert forall|id: int|
                0 <= id < m1.phases.len() && (#[trigger] m1.phases[id]) is Queued implies exists|
                i: int,
            |
                0 <= i < m1.queue.len() && (#[trigger] m1.queue[i]).task_id == id by {
                let i = choose|i: int|
                    0 <= i < m0.queue.len() && (#[trigger] m0.queue[i]).task_id == id;
                assert(m1.queue[i].task_id == id);
            }
        }
    }
}

/// The registry names an idle worker exactly when one exists: a `Some`
/// answer is an in-range worker whose idle flag is set, a `None` answer
/// means no flag is set.
proof fn lemma_last_idle(idle: Seq<bool>)
    ensures
        last_idle(idle) matches Some(w) ==> 0 <= w < idle.len() && idle[w],
        last_idle(idle) is None ==> forall|i: int| 0 <= i < idle.len() ==> !idle[i],
    decreases idle.len(),
{
    if idle.len() > 0 {
        lemma_last_idle(idle.drop_last());
        if last_idle(idle) is None {
            assert(!idle.last());
            assert forall|i: int| 0 <= i < idle.len() implies !idle[i] by {
                if i < idle.len() - 1 {
                    assert(!idle.drop_last()[i]);
                }
            }
        }
    }
}

/// Law (FIFO dequeue order): in a well-formed runtime the pending queue
/// lists tasks in submission order — an earlier-submitted task carries a
/// smaller id and stands closer to the head — and a worker always takes
/// the head, so no pending task is passed over for a later submission.
pub proof fn lemma_fifo_order(m: RuntimeModel)
    requires
        runtime_wf(m),
    ensures
        forall|i: int, j: int|
            0 <= i < j < m.queue.len() ==> (#[trigger] m.queue[i]).task_id < (
            #[trigger] m.queue[j]).task_id,
        m.queue.len() > 0 ==> spec_next_task(m) == Some(m.queue[0]),
{
}

/// Law (submissions keep their order): after two submissions, the task of
/// the first stands ahead of the task of the second in the queue.
pub proof fn lemma_two_submissions_ordered(
    m: RuntimeModel,
    p1: Seq<char>,
    d1: Seq<u8>,
    p2: Seq<char>,
    d2: Seq<u8>,
)
    requires
        runtime_wf(m),
    ensures
        ({
            let m1 = spec_spawn(m, p1, d1);
            let m2 = spec_spawn(m1, p2, d2);
            &&& m2.queue[m.queue.len() as int].task_id == m.phases.len()
            &&& m2.queue[m.queue.len() as int + 1].task_id == m1.phases.len()
            &&& m.phases.len() < m1.phases.len()
        }),
{
    let m1 = spec_spawn(m, p1, d1);
    let m2 = spec_spawn(m1, p2, d2);
    assert(m1.queue[m.queue.len() as int].task_id == m.phases.len());
    assert(m2.queue[m.queue.len() as int] == m1.queue[m.queue.len() as int]);
}

/// Law (at-most-once execution): a freshly submitted id is not yet in the
/// queue, distinct queue positions hold distinct ids, and a task that has
/// left the `Queued` phase is never dequeued again — so each task reaches
/// the process executor at most once.
pub proof fn lemma_at_most_once(m: RuntimeModel, id: int)
    requires
        runtime_wf(m),
    ensures
        forall|i: int|
            0 <= i < m.queue.len() ==> (#[trigger] m.queue[i]).task_id != m.phases.len(),
        forall|i: int, j: int|
            0 <= i < j < m.queue.len() ==> (#[trigger] m.queue[i]).task_id != (
            #[trigger] m.queue[j]).task_id,
        0 <= id < m.phases.len() && !(m.phases[id] is Queued) ==> forall|i: int|
            0 <= i < m.queue.len() ==> (#[trigger] m.queue[i]).task_id != id,
        (0 <= id < m.phases.len() && !(m.phases[id] is Queued)) ==> (spec_next_task(m) matches
            Some(t) ==> t.task_id != id),
{
}

/// Law (exactly-once delivery): a finished task's resolution is stable.
/// No submission, no dequeue and no report on a running task changes it,
/// and a report is only accepted for a running task — which a finished
/// task never again is. The handle's `poll` then hands the stable
/// resolution out a single time.
pub proof fn lemma_finished_stable(
    m: RuntimeModel,
    id: int,
    p: Seq<char>,
    d: Seq<u8>,
    w: int,
    id2: int,
    res: Resolution,
)
    requires
        runtime_wf(m),
        0 <= id < m.phases.len(),
        m.phases[id] is Finished,
    ensures
        spec_spawn(m, p, d).phases[id] == m.phases[id],
        spec_worker_next(m, w).phases[id] == m.phases[id],
        0 <= id2 < m.phases.len() && m.phases[id2] is Running ==> spec_report(
            m,
            id2,
            res,
        ).phases[id] == m.phases[id],
{
    if m.queue.len() > 0 {
        assert(m.phases[m.queue[0].task_id] is Queued);
    }
}

/// Law (no lost wakeups): a submission into an empty queue wakes exactly
/// the worker the registry names, clears its registration before it is
/// resumed, and that worker's next request for work receives exactly the
/// submitted task. Together with `worker_next`'s guarantee that a worker
/// only ever parks on an empty queue, a submission is never stranded while
/// a worker sits idle.
pub proof fn lemma_no_lost_wakeup(m: RuntimeModel, p: Seq<char>, d: Seq<u8>, w: int)
    requires
        runtime_wf(m),
        m.queue.len() == 0,
        last_idle(m.idle) == Some(w),
    ensures
        ({
            let m1 = spec_spawn(m, p, d);
            &&& 0 <= w < m.idle.len() && m.idle[w]
            &&& !m1.idle[w]
            &&& spec_next_task(m1) matches Some(t) && t.task_id == m.phases.len()
            &&& spec_worker_next(m1, w).phases[m.phases.len() as int] is Running
        }),
{
    lemma_last_idle(m.idle);
    let m1 = spec_spawn(m, p, d);
    assert(m1.queue[0].task_id == m.phases.len());
}

} // verus!
