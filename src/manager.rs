//! The ready queue and the pick-next policy.
use vstd::prelude::*;

verus! {

/// How `TaskManager::fetch` picks the next task to run.
#[derive(Clone, Copy, PartialEq, Eq, Structural, Debug)]
pub enum SchedPolicy {
    /// The task at the front of the queue.
    Fifo,
    /// The task with the least stride; the earliest in the queue among equals.
    Stride,
}

/// Queue of the process ids of the tasks that are ready to run.
pub struct TaskManager {
    pub ready_queue: Vec<usize>,
    pub policy: SchedPolicy,
}

/// Index in `queue` of the task that `policy` picks, given each task's
/// stride by process id.
pub open spec fn picked(queue: Seq<usize>, strides: Seq<u64>, policy: SchedPolicy, idx: int) -> bool {
    &&& 0 <= idx < queue.len()
    &&& policy == SchedPolicy::Fifo ==> idx == 0
    &&& policy == SchedPolicy::Stride ==> {
        &&& forall|j: int| 0 <= j < queue.len() ==> strides[queue[idx] as int] <= #[trigger] strides[queue[j] as int]
        &&& forall|j: int| 0 <= j < idx ==> strides[queue[idx] as int] < #[trigger] strides[queue[j] as int]
    }
}

impl TaskManager {
    /// An empty queue with stride scheduling.
    pub fn new() -> (r: TaskManager)
        ensures
            r.ready_queue@ == Seq::<usize>::empty(),
            r.policy == SchedPolicy::Stride,
    {
        TaskManager { ready_queue: Vec::new(), policy: SchedPolicy::Stride }
    }

    /// An empty queue with the given policy.
    pub fn with_policy(policy: SchedPolicy) -> (r: TaskManager)
        ensures
            r.ready_queue@ == Seq::<usize>::empty(),
            r.policy == policy,
    {
        TaskManager { ready_queue: Vec::new(), policy }
    }

    /// Appends a task to the back of the queue.
    pub fn add(&mut self, pid: usize)
        ensures
            final(self).ready_queue@ == old(self).ready_queue@.push(pid),
            final(self).policy == old(self).policy,
    {
        self.ready_queue.push(pid);
    }

    /// Removes and returns the task that the policy picks; `strides[pid]` is
    /// the stride of task `pid`.
    pub fn fetch(&mut self, strides: &Vec<u64>) -> (r: Option<usize>)
        requires
            forall|j: int| 0 <= j < old(self).ready_queue@.len() ==> #[trigger] old(self).ready_queue@[j] < strides@.len(),
        ensures
            final(self).policy == old(self).policy,
            r is None <==> old(self).ready_queue@.len() == 0,
            r is None ==> *final(self) == *old(self),
            r matches Some(pid) ==> exists|idx: int|
                picked(old(self).ready_queue@, strides@, old(self).policy, idx)
                    && pid == old(self).ready_queue@[idx]
                    && final(self).ready_queue@ == old(self).ready_queue@.remove(idx),
    {
        if self.ready_queue.len() == 0 {
            return None;
        }
        let mut best: usize = 0;
        if self.policy == SchedPolicy::Stride {
            let mut i: usize = 1;
            while i < self.ready_queue.len()
                invariant
                    *self == *old(self),
                    self.policy == SchedPolicy::Stride,
                    forall|j: int| 0 <= j < self.ready_queue@.len() ==> #[trigger] self.ready_queue@[j] < strides@.len(),
                    1 <= i <= self.ready_queue@.len(),
                    best < i,
                    forall|j: int| 0 <= j < i ==> strides@[self.ready_queue@[best as int] as int] <= #[trigger] strides@[self.ready_queue@[j] as int],
                    forall|j: int| 0 <= j < best ==> strides@[self.ready_queue@[best as int] as int] < #[trigger] strides@[self.ready_queue@[j] as int],
                decreases self.ready_queue@.len() - i,
            {
                if strides[self.ready_queue[i]] < strides[self.ready_queue[best]] {
                    best = i;
                }
                i = i + 1;
            }
        }
        let pid = self.ready_queue.remove(best);
        assert(picked(old(self).ready_queue@, strides@, old(self).policy, best as int));
        Some(pid)
    }
}

/// Two tasks sharing the core under stride scheduling, both starting at
/// stride `s`: each cycle dispatches the one with the lesser stride (the
/// first on a tie) and advances it by its pass. Gives both strides and how
/// often each ran after `n` cycles.
pub open spec fn two_task_run(s: int, pass1: int, pass2: int, n: nat) -> (int, int, nat, nat)
    decreases n,
{
    if n == 0 {
        (s, s, 0, 0)
    } else {
        let prev = two_task_run(s, pass1, pass2, (n - 1) as nat);
        if prev.0 <= prev.1 {
            (prev.0 + pass1, prev.1, prev.2 + 1, prev.3)
        } else {
            (prev.0, prev.1 + pass2, prev.2, (prev.3 + 1) as nat)
        }
    }
}

/// With two tasks queued, the stride policy picks the first exactly when
/// its stride is not above the second's; this is the choice that
/// `two_task_run` makes.
pub proof fn lemma_pick_of_two(t1: usize, t2: usize, strides: Seq<u64>, idx: int)
    requires
        t1 < strides.len(),
        t2 < strides.len(),
        picked(seq![t1, t2], strides, SchedPolicy::Stride, idx),
    ensures
        idx == 0 <==> strides[t1 as int] <= strides[t2 as int],
{
    let q = seq![t1, t2];
    assert(q[0] == t1 && q[1] == t2);
}

/// Fairness of stride scheduling for two tasks: after any number of cycles
/// every cycle ran one task, each stride is its start plus its pass times its
/// count, and the work done, `n1 * pass1` against `n2 * pass2`, differs by
/// at most one pass. So the counts approach the inverse ratio of the passes,
/// that is the ratio of the priorities.
pub proof fn lemma_two_task_fairness(s: int, pass1: int, pass2: int, n: nat)
    requires
        pass1 > 0,
        pass2 > 0,
    ensures
        ({
            let (a, b, n1, n2) = two_task_run(s, pass1, pass2, n);
            &&& n1 + n2 == n
            &&& a == s + n1 * pass1
            &&& b == s + n2 * pass2
            &&& -pass2 <= n1 * pass1 - n2 * pass2 <= pass1
        }),
    decreases n,
{
    if n > 0 {
        lemma_two_task_fairness(s, pass1, pass2, (n - 1) as nat);
        let (a, b, n1, n2) = two_task_run(s, pass1, pass2, (n - 1) as nat);
        assert((n1 + 1) * pass1 == n1 * pass1 + pass1) by (nonlinear_arith);
        assert((n2 + 1) * pass2 == n2 * pass2 + pass2) by (nonlinear_arith);
    }
}

} // verus!
