//! The ready queue and stride scheduling: each task carries a pass value
//! ("stride"); the task with the least pass runs next and its pass grows by
//! `BIG_STRIDE / priority`, so a task runs in proportion to its priority.

use vstd::prelude::*;

verus! {

/// The constant that a task's priority divides to give its pass step.
pub const BIG_STRIDE: usize = 0x10000;

/// What scheduling keeps of a task: its id, priority and pass value.
#[derive(Clone, Copy, PartialEq, Eq, Debug)]
pub struct TaskInfo {
    pub pid: usize,
    pub priority: isize,
    pub stride: usize,
}

/// The ready queue, in the order tasks were added.
pub struct TaskManager {
    ready_queue: Vec<TaskInfo>,
}

impl View for TaskManager {
    type V = Seq<TaskInfo>;

    closed spec fn view(&self) -> Seq<TaskInfo> {
        self.ready_queue@
    }
}

/// How far a run moves the pass of a task with `priority`; priorities below
/// 2 count as 2.
pub open spec fn pass_step(priority: isize) -> int {
    BIG_STRIDE as int / (if priority < 2 {
        2
    } else {
        priority as int
    })
}

/// `i` is the first task of `q` with the least pass value.
pub open spec fn first_min(q: Seq<TaskInfo>, i: int) -> bool {
    &&& 0 <= i < q.len()
    &&& forall|j: int| 0 <= j < q.len() ==> q[i].stride <= #[trigger] q[j].stride
    &&& forall|j: int| 0 <= j < i ==> q[i].stride < #[trigger] q[j].stride
}

impl TaskManager {
    /// An empty ready queue.
    pub fn new() -> (m: TaskManager)
        ensures
            m@ == Seq::<TaskInfo>::empty(),
    {
        TaskManager { ready_queue: Vec::new() }
    }

    /// Puts `task` at the back of the ready queue.
    pub fn add(&mut self, task: TaskInfo)
        ensures
            final(self)@ == old(self)@.push(task),
    {
        self.ready_queue.push(task);
    }

    /// The index of the first task with the least pass value.
    fn min_index(&self) -> (i: usize)
        requires
            self@.len() > 0,
        ensures
            first_min(self@, i as int),
    {
        let mut min_i: usize = 0;
        let mut min_s: usize = usize::MAX;
        let mut i: usize = 0;
        while i < self.ready_queue.len()
            invariant
                0 <= i <= self.ready_queue@.len(),
                self.ready_queue@.len() > 0,
                min_i < self.ready_queue@.len(),
                forall|j: int| 0 <= j < i ==> min_s <= #[trigger] self.ready_queue@[j].stride,
                i > 0 ==> min_s == self.ready_queue@[min_i as int].stride,
                i == 0 ==> min_i == 0 && min_s == usize::MAX,
                forall|j: int| 0 <= j < min_i ==> min_s < #[trigger] self.ready_queue@[j].stride,
                min_s == usize::MAX ==> min_i == 0,
            decreases self.ready_queue@.len() - i,
        {
            let s = self.ready_queue[i].stride;
            if s < min_s {
                min_s = s;
                min_i = i;
            }
            i = i + 1;
        }
        min_i
    }

    /// The pass step of a task with `priority`.
    fn step_of(priority: isize) -> (r: usize)
        ensures
            r == pass_step(priority),
            priority >= 2 ==> r == BIG_STRIDE / (priority as usize),
            priority < 2 ==> r == BIG_STRIDE / 2,
    {
        let p: usize = if priority < 2 {
            2
        } else {
            priority as usize
        };
        BIG_STRIDE / p
    }

    /// Whether the next `fetch` can move the chosen task's pass on without
    /// leaving the range of `usize` (always so for an empty queue).
    pub fn fetch_fits(&self) -> (r: bool)
        ensures
            r == forall|i: int|
                first_min(self@, i) ==> self@[i].stride + pass_step(self@[i].priority) <= usize::MAX,
    {
        if self.ready_queue.len() == 0 {
            return true;
        }
        let i = self.min_index();
        let t = self.ready_queue[i];
        let r = t.stride <= usize::MAX - Self::step_of(t.priority);
        proof {
            assert forall|k: int| first_min(self@, k) implies k == i by {
                lemma_first_min_unique(self@, i as int, k);
            }
        }
        r
    }

    /// Takes the task with the least pass value off the queue (the first
    /// such, when several tie), moves its pass on by its step, and returns it;
    /// `None` when the queue is empty.
    pub fn fetch(&mut self) -> (r: Option<TaskInfo>)
        requires
            forall|i: int|
                first_min(old(self)@, i) ==> old(self)@[i].stride + pass_step(old(self)@[i].priority)
                    <= usize::MAX,
        ensures
            old(self)@.len() == 0 ==> r is None && final(self)@ == old(self)@,
            old(self)@.len() > 0 ==> exists|i: int|
                first_min(old(self)@, i) && final(self)@ == old(self)@.remove(i) && r == Some(
                    TaskInfo {
                        stride: (old(self)@[i].stride + pass_step(old(self)@[i].priority)) as usize,
                        ..old(self)@[i]
                    },
                ),
    {
        if self.ready_queue.len() == 0 {
            return None;
        }
        let min_i = self.min_index();
        let ghost q = self.ready_queue@;
        let mut task = self.ready_queue.remove(min_i);
        let step = Self::step_of(task.priority);
        assert(q[min_i as int].stride + pass_step(q[min_i as int].priority) <= usize::MAX);
        task.stride = task.stride + step;
        Some(task)
    }
}

/// A run moves a task's pass on by `BIG_STRIDE` divided by its priority,
/// rounded down, for every priority of at least 2, and by half of
/// `BIG_STRIDE` below that: the quotient `q` is the one with
/// `q * priority <= BIG_STRIDE < (q + 1) * priority`.
pub proof fn lemma_pass_step_divides_by_priority(priority: isize)
    ensures
        priority >= 2 ==> pass_step(priority) * priority <= BIG_STRIDE && BIG_STRIDE < (pass_step(
            priority,
        ) + 1) * priority,
        priority >= 2 ==> pass_step(priority) >= 0,
        priority < 2 ==> pass_step(priority) == 0x8000,
{
    if priority >= 2 {
        let p = priority as int;
        let q = pass_step(priority);
        assert(q == 0x10000int / p);
        assert(q * p <= 0x10000 && 0x10000 < (q + 1) * p && q >= 0) by (nonlinear_arith)
            requires
                q == 0x10000int / p,
                p >= 2,
        ;
    }
}

/// The ready queue's choice is fair to the least pass: the task `fetch`
/// picks has a pass no greater than any other ready task's, and no task
/// before it in the queue has the same pass.
pub proof fn lemma_fetch_picks_least_pass(q: Seq<TaskInfo>, i: int, j: int)
    requires
        first_min(q, i),
        0 <= j < q.len(),
    ensures
        q[i].stride <= q[j].stride,
        j < i ==> q[i].stride != q[j].stride,
{
}

/// The first task with the least pass is unique: `fetch` is deterministic.
pub proof fn lemma_first_min_unique(q: Seq<TaskInfo>, i: int, k: int)
    requires
        first_min(q, i),
        first_min(q, k),
    ensures
        i == k,
{
    if i < k {
        assert(q[k].stride < q[i].stride);
    } else if k < i {
        assert(q[i].stride < q[k].stride);
    }
}

/// A task added to an empty ready queue is the one fetched next.
pub proof fn lemma_add_then_fetch(t: TaskInfo)
    ensures
        first_min(Seq::<TaskInfo>::empty().push(t), 0),
        Seq::<TaskInfo>::empty().push(t).remove(0) == Seq::<TaskInfo>::empty(),
{
    assert(Seq::<TaskInfo>::empty().push(t).remove(0) =~= Seq::<TaskInfo>::empty());
}

} // verus!
