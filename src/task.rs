//! Task control blocks and the kernel context that owns them.
use vstd::prelude::*;

use crate::config::{APP_BASE, BIG_STRIDE, MAX_APP_SIZE, MAX_SYSCALL_NUM, MAX_TASKS};
use crate::manager::TaskManager;
use crate::mm::{vpn_of, MemorySet};

verus! {

/// Life-cycle state of a task.
#[derive(Clone, Copy, PartialEq, Eq, Structural, Debug)]
pub enum TaskStatus {
    UnInit,
    Ready,
    Running,
    Zombie,
}

/// Saved user registers that a task resumes with.
#[derive(Clone, Copy, PartialEq, Eq, Structural, Debug)]
pub struct TrapContext {
    /// Register a0, which carries a system call's return value.
    pub x10: usize,
    /// User stack pointer.
    pub sp: usize,
    /// Address of the next user instruction.
    pub sepc: usize,
}

/// Priority that a task starts with.
pub const DEFAULT_PRIORITY: u64 = 16;

/// One task. Its process id is its index in `Kernel::tasks`; `parent` and
/// `children` hold process ids.
pub struct TaskControlBlock {
    pub pid: usize,
    pub parent: Option<usize>,
    pub children: Vec<usize>,
    pub status: TaskStatus,
    pub exit_code: i32,
    pub priority: u64,
    pub stride: u64,
    pub syscall_times: Vec<u32>,
    /// Time of first dispatch in milliseconds, once dispatched.
    pub start_time: Option<usize>,
    pub trap_cx: TrapContext,
    pub memory_set: MemorySet,
    /// The parent has consumed the exit code; the task is gone.
    pub reaped: bool,
}

/// A program that `exec` and `spawn` can load by name.
pub struct App {
    pub name: Vec<u8>,
    pub image: Vec<u8>,
}

/// The whole kernel state: every task, the ready queue, the task on the core
/// and the programs that can be loaded.
pub struct Kernel {
    pub tasks: Vec<TaskControlBlock>,
    pub manager: TaskManager,
    pub current: Option<usize>,
    pub apps: Vec<App>,
}

/// Stride added to a task of priority `p` each time it is dispatched.
pub open spec fn pass_of(p: u64) -> u64 {
    (BIG_STRIDE / p) as u64
}

/// `s` advanced by `pass`, staying at the largest value once reached.
pub open spec fn advance(s: u64, pass: u64) -> u64 {
    if s + pass <= u64::MAX {
        (s + pass) as u64
    } else {
        u64::MAX
    }
}

impl TaskControlBlock {
    pub open spec fn wf(&self) -> bool {
        &&& self.memory_set.wf()
        &&& self.syscall_times@.len() == MAX_SYSCALL_NUM
        &&& self.priority >= 2
    }

    /// A ready task built from a program image, or `None` when the image is
    /// too large.
    pub fn from_image(pid: usize, parent: Option<usize>, image: &Vec<u8>) -> (r: Option<
        TaskControlBlock,
    >)
        ensures
            r.is_some() == (image@.len() <= crate::config::MAX_APP_SIZE),
            r matches Some(t) ==> {
                &&& t.wf()
                &&& t.pid == pid
                &&& t.parent == parent
                &&& t.children@.len() == 0
                &&& t.status == TaskStatus::Ready
                &&& t.priority == DEFAULT_PRIORITY
                &&& t.stride == 0
                &&& t.start_time is None
                &&& !t.reaped
                &&& t.trap_cx == (TrapContext { x10: 0, sp: t.memory_set.heap_bottom, sepc: APP_BASE })
                &&& forall|i: int| 0 <= i < MAX_SYSCALL_NUM ==> t.syscall_times@[i] == 0
                &&& t.memory_set.bytes(APP_BASE as int, image@.len() as nat) == image@
                &&& t.memory_set.heap_bottom == t.memory_set.program_brk
                &&& t.memory_set.spans() == crate::mm::image_spans(image@.len(), t.memory_set.heap_bottom as int)
                &&& crate::mm::is_image_space(t.memory_set, image@)
            },
    {
        match MemorySet::from_image(image) {
            None => None,
            Some((ms, sp)) => Some(
                TaskControlBlock {
                    pid,
                    parent,
                    children: Vec::new(),
                    status: TaskStatus::Ready,
                    exit_code: 0,
                    priority: DEFAULT_PRIORITY,
                    stride: 0,
                    syscall_times: zero_counts(),
                    start_time: None,
                    trap_cx: TrapContext { x10: 0, sp, sepc: APP_BASE },
                    memory_set: ms,
                    reaped: false,
                },
            ),
        }
    }
}

/// One zero counter for each system-call number.
pub fn zero_counts() -> (r: Vec<u32>)
    ensures
        r@.len() == MAX_SYSCALL_NUM,
        forall|i: int| 0 <= i < MAX_SYSCALL_NUM ==> r@[i] == 0,
{
    let mut v: Vec<u32> = Vec::new();
    let mut i: usize = 0;
    while i < MAX_SYSCALL_NUM
        invariant
            i <= MAX_SYSCALL_NUM,
            v@.len() == i,
            forall|j: int| 0 <= j < i ==> v@[j] == 0,
        decreases MAX_SYSCALL_NUM - i,
    {
        v.push(0);
        i = i + 1;
    }
    v
}

/// The two byte strings are equal.
pub fn bytes_eq(a: &Vec<u8>, b: &Vec<u8>) -> (r: bool)
    ensures
        r == (a@ == b@),
{
    if a.len() != b.len() {
        return false;
    }
    let mut i: usize = 0;
    while i < a.len()
        invariant
            a@.len() == b@.len(),
            i <= a@.len(),
            forall|j: int| 0 <= j < i ==> a@[j] == b@[j],
        decreases a@.len() - i,
    {
        if a[i] != b[i] {
            return false;
        }
        i = i + 1;
    }
    assert(a@ =~= b@);
    true
}

/// Removing an element keeps a sequence free of duplicates.
pub proof fn lemma_remove_no_duplicates(s: Seq<usize>, idx: int)
    requires
        s.no_duplicates(),
        0 <= idx < s.len(),
    ensures
        s.remove(idx).no_duplicates(),
        !s.remove(idx).contains(s[idx]),
{
    let r = s.remove(idx);
    assert forall|a: int, b: int| 0 <= a < r.len() && 0 <= b < r.len() && a != b implies r[a] != r[b] by {
        let oa = if a < idx { a } else { a + 1 };
        let ob = if b < idx { b } else { b + 1 };
        assert(r[a] == s[oa] && r[b] == s[ob]);
    }
    assert forall|a: int| 0 <= a < r.len() implies r[a] != s[idx] by {
        let oa = if a < idx { a } else { a + 1 };
        assert(r[a] == s[oa]);
    }
}

/// Appending an element that is not there keeps a sequence free of
/// duplicates.
pub proof fn lemma_push_no_duplicates(s: Seq<usize>, x: usize)
    requires
        s.no_duplicates(),
        forall|j: int| 0 <= j < s.len() ==> #[trigger] s[j] != x,
    ensures
        s.push(x).no_duplicates(),
{
    let r = s.push(x);
    assert forall|a: int, b: int| 0 <= a < r.len() && 0 <= b < r.len() && a != b implies r[a] != r[b] by {
        if a < s.len() && b < s.len() {
            assert(r[a] == s[a] && r[b] == s[b]);
        }
    }
}

impl Kernel {
    pub open spec fn wf(&self) -> bool {
        let tasks = self.tasks@;
        let queue = self.manager.ready_queue@;
        &&& tasks.len() <= MAX_TASKS
        &&& forall|i: int| 0 <= i < self.apps@.len() ==> (#[trigger] self.apps@[i]).image@.len() <= MAX_APP_SIZE
        &&& forall|i: int, j: int|
            0 <= i < self.apps@.len() && 0 <= j < self.apps@.len() && i != j ==> (#[trigger] self.apps@[i]).name@
                != (#[trigger] self.apps@[j]).name@
        &&& forall|i: int| 0 <= i < tasks.len() ==> (#[trigger] tasks[i]).wf() && tasks[i].pid == i
        &&& self.current matches Some(c) ==> c < tasks.len() && tasks[c as int].status == TaskStatus::Running
        &&& forall|i: int|
            0 <= i < tasks.len() && (#[trigger] tasks[i]).status == TaskStatus::Running
                ==> self.current == Some(i as usize)
        &&& forall|j: int|
            0 <= j < queue.len() ==> #[trigger] queue[j] < tasks.len() && tasks[queue[j] as int].status
                == TaskStatus::Ready
        &&& queue.no_duplicates()
        &&& forall|i: int, j: int|
            0 <= i < tasks.len() && 0 <= j < tasks[i].children@.len() ==> {
                &&& #[trigger] tasks[i].children@[j] < tasks.len()
                &&& tasks[tasks[i].children@[j] as int].parent == Some(i as usize)
            }
    }

    /// The two kernels hold the same tasks, queue, running task and programs.
    pub open spec fn same_as(&self, other: &Kernel) -> bool {
        &&& self.tasks@ == other.tasks@
        &&& self.manager.ready_queue@ == other.manager.ready_queue@
        &&& self.manager.policy == other.manager.policy
        &&& self.current == other.current
        &&& self.apps@ == other.apps@
    }

    /// Only the running task's memory differs from `before`, and it is now
    /// `m`; everything else, the running task's other fields included, is
    /// as it was.
    pub open spec fn cur_memory_now(&self, before: &Kernel, m: MemorySet) -> bool {
        &&& before.current matches Some(c) && self.tasks@ == before.tasks@.update(
            c as int,
            TaskControlBlock { memory_set: m, ..before.cur() },
        )
        &&& self.current == before.current
        &&& self.manager == before.manager
        &&& self.apps == before.apps
    }

    /// The task on the core.
    pub open spec fn cur(&self) -> TaskControlBlock {
        self.tasks@[self.current->Some_0 as int]
    }

    /// A kernel with no task and no program yet, with stride scheduling.
    pub fn new() -> (r: Kernel)
        ensures
            r.wf(),
            r.tasks@.len() == 0,
            r.apps@.len() == 0,
            r.current is None,
            r.manager.ready_queue@.len() == 0,
    {
        Kernel { tasks: Vec::new(), manager: TaskManager::new(), current: None, apps: Vec::new() }
    }

    /// Registers a loadable program; refused when the image is larger than
    /// the loader takes or a program of that name is already registered.
    pub fn add_app(&mut self, name: Vec<u8>, image: Vec<u8>) -> (r: bool)
        requires
            old(self).wf(),
        ensures
            final(self).wf(),
            r == (image@.len() <= MAX_APP_SIZE && forall|i: int| 0 <= i < old(self).apps@.len() ==> (#[trigger] old(self).apps@[i]).name@ != name@),
            r ==> final(self).apps@ == old(self).apps@.push(App { name, image }),
            !r ==> *final(self) == *old(self),
            final(self).tasks == old(self).tasks,
            final(self).manager == old(self).manager,
            final(self).current == old(self).current,
    {
        if image.len() > MAX_APP_SIZE {
            return false;
        }
        if self.find_app(&name).is_some() {
            return false;
        }
        self.apps.push(App { name, image });
        assert forall|i: int| 0 <= i < self.apps@.len() implies (#[trigger] self.apps@[i]).image@.len() <= MAX_APP_SIZE by {
            if i < old(self).apps@.len() {
                assert(old(self).apps@[i] == self.apps@[i]);
            }
        }
        assert forall|i: int, j: int| 0 <= i < self.apps@.len() && 0 <= j < self.apps@.len() && i != j implies (#[trigger] self.apps@[i]).name@ != (#[trigger] self.apps@[j]).name@ by {
            let n = old(self).apps@.len() as int;
            if i < n && j < n {
                assert(old(self).apps@[i].name@ != old(self).apps@[j].name@);
            } else if i < n {
                assert(self.apps@[i] == old(self).apps@[i]);
            } else {
                assert(self.apps@[j] == old(self).apps@[j]);
            }
        }
        true
    }

    /// Index of the program called `name`.
    pub fn find_app(&self, name: &Vec<u8>) -> (r: Option<usize>)
        ensures
            r matches Some(i) ==> i < self.apps@.len() && self.apps@[i as int].name@ == name@,
            r is None ==> forall|i: int| 0 <= i < self.apps@.len() ==> (#[trigger] self.apps@[i]).name@ != name@,
    {
        let mut i: usize = 0;
        while i < self.apps.len()
            invariant
                i <= self.apps@.len(),
                forall|j: int| 0 <= j < i ==> (#[trigger] self.apps@[j]).name@ != name@,
            decreases self.apps@.len() - i,
        {
            if bytes_eq(&self.apps[i].name, name) {
                return Some(i);
            }
            i = i + 1;
        }
        None
    }

    /// Creates a parentless ready task from the program called `name` and
    /// queues it; returns its process id.
    pub fn add_initial_task(&mut self, name: &Vec<u8>) -> (r: Option<usize>)
        requires
            old(self).wf(),
        ensures
            final(self).wf(),
            final(self).current == old(self).current,
            r matches Some(pid) ==> {
                &&& pid == old(self).tasks@.len()
                &&& final(self).tasks@.len() == pid + 1
                &&& final(self).tasks@[pid as int].status == TaskStatus::Ready
                &&& final(self).manager.ready_queue@ == old(self).manager.ready_queue@.push(pid)
            },
            r is None ==> *final(self) == *old(self),
            r is Some <==> old(self).tasks@.len() < MAX_TASKS && exists|i: int|
                0 <= i < old(self).apps@.len() && (#[trigger] old(self).apps@[i]).name@ == name@,
    {
        let idx = match self.find_app(name) {
            Some(i) => i,
            None => {
                return None;
            },
        };
        let pid = self.tasks.len();
        if pid >= MAX_TASKS {
            return None;
        }
        assert(self.apps@[idx as int].image@.len() <= MAX_APP_SIZE);
        let task = match TaskControlBlock::from_image(pid, None, &self.apps[idx].image) {
            Some(t) => t,
            None => {
                return None;
            },
        };
        self.tasks.push(task);
        self.manager.add(pid);
        proof {
            self.lemma_push_task_wf(*old(self), pid, None);
        }
        Some(pid)
    }

    /// Appending a ready task with no children, listing it under its parent
    /// if it has one, and queueing it keeps the kernel well formed.
    pub proof fn lemma_push_task_wf(&self, before: Kernel, pid: usize, parent: Option<usize>)
        requires
            before.wf(),
            pid == before.tasks@.len(),
            pid < MAX_TASKS,
            self.tasks@.len() == pid + 1,
            self.apps == before.apps,
            forall|i: int| 0 <= i < pid && Some(i as usize) != parent ==> #[trigger] self.tasks@[i] == before.tasks@[i],
            parent matches Some(p) ==> p < pid && self.tasks@[p as int] == (TaskControlBlock {
                children: self.tasks@[p as int].children,
                ..before.tasks@[p as int]
            }) && self.tasks@[p as int].children@ == before.tasks@[p as int].children@.push(pid),
            self.tasks@[pid as int].wf(),
            self.tasks@[pid as int].pid == pid,
            self.tasks@[pid as int].parent == parent,
            self.tasks@[pid as int].status == TaskStatus::Ready,
            self.tasks@[pid as int].children@.len() == 0,
            self.manager.ready_queue@ == before.manager.ready_queue@.push(pid),
            self.current == before.current,
        ensures
            self.wf(),
    {
        let tasks = self.tasks@;
        assert forall|i: int| 0 <= i < tasks.len() implies (#[trigger] tasks[i]).wf() && tasks[i].pid == i by {
            if i < pid {
                assert(before.tasks@[i].wf());
            }
        }
        assert forall|i: int, j: int|
            0 <= i < tasks.len() && 0 <= j < tasks[i].children@.len() implies {
            &&& #[trigger] tasks[i].children@[j] < tasks.len()
            &&& tasks[tasks[i].children@[j] as int].parent == Some(i as usize)
        } by {
            if Some(i as usize) == parent && j == before.tasks@[i].children@.len() {
            } else {
                assert(tasks[i].children@[j] == before.tasks@[i].children@[j]);
                assert(before.tasks@[i].children@[j] < before.tasks@.len());
            }
        }
        assert forall|i: int| 0 <= i < tasks.len() && (#[trigger] tasks[i]).status == TaskStatus::Running implies self.current == Some(i as usize) by {
            if i < pid {
                assert(before.tasks@[i].status == TaskStatus::Running);
            }
        }
        let q = self.manager.ready_queue@;
        assert forall|j: int| 0 <= j < q.len() implies #[trigger] q[j] < tasks.len()
            && tasks[q[j] as int].status == TaskStatus::Ready by {
            if j < q.len() - 1 {
                assert(q[j] == before.manager.ready_queue@[j]);
                assert(before.tasks@[q[j] as int].status == TaskStatus::Ready);
            }
        }
        assert forall|j: int| 0 <= j < before.manager.ready_queue@.len() implies #[trigger] before.manager.ready_queue@[j] != pid by {
            assert(before.manager.ready_queue@[j] < before.tasks@.len());
        }
        lemma_push_no_duplicates(before.manager.ready_queue@, pid);
    }

    /// Replacing tasks by well-formed ones with the same process id, parent
    /// and children keeps every task well formed and every child linked to
    /// its parent.
    pub proof fn lemma_keeps_links(&self, before: Kernel)
        requires
            before.wf(),
            self.tasks@.len() == before.tasks@.len(),
            forall|i: int|
                0 <= i < self.tasks@.len() ==> #[trigger] self.tasks@[i] == before.tasks@[i] || {
                    &&& self.tasks@[i].wf()
                    &&& self.tasks@[i].pid == before.tasks@[i].pid
                    &&& self.tasks@[i].parent == before.tasks@[i].parent
                    &&& self.tasks@[i].children == before.tasks@[i].children
                },
        ensures
            forall|i: int| 0 <= i < self.tasks@.len() ==> (#[trigger] self.tasks@[i]).wf() && self.tasks@[i].pid == i,
            forall|i: int, j: int|
                0 <= i < self.tasks@.len() && 0 <= j < self.tasks@[i].children@.len() ==> {
                    &&& #[trigger] self.tasks@[i].children@[j] < self.tasks@.len()
                    &&& self.tasks@[self.tasks@[i].children@[j] as int].parent == Some(i as usize)
                },
    {
        let tasks = self.tasks@;
        assert forall|i: int| 0 <= i < tasks.len() implies (#[trigger] tasks[i]).wf() && tasks[i].pid == i by {
            assert(before.tasks@[i].wf());
        }
        assert forall|i: int, j: int|
            0 <= i < tasks.len() && 0 <= j < tasks[i].children@.len() implies {
            &&& #[trigger] tasks[i].children@[j] < tasks.len()
            &&& tasks[tasks[i].children@[j] as int].parent == Some(i as usize)
        } by {
            assert(before.tasks@[i].children@[j] < before.tasks@.len());
            let c = tasks[i].children@[j] as int;
            assert(tasks[c] == before.tasks@[c] || tasks[c].parent == before.tasks@[c].parent);
        }
    }

    /// Replacing the running task by one that differs only in its memory,
    /// registers, counters or priority keeps the kernel well formed.
    pub proof fn lemma_update_current_wf(&self, before: Kernel, t: TaskControlBlock)
        requires
            before.wf(),
            before.current matches Some(c) && self.tasks@ == before.tasks@.update(c as int, t),
            t.wf(),
            t.pid == before.cur().pid,
            t.status == before.cur().status,
            t.parent == before.cur().parent,
            t.children == before.cur().children,
            self.manager == before.manager,
            self.current == before.current,
            self.apps == before.apps,
        ensures
            self.wf(),
    {
        let tasks = self.tasks@;
        self.lemma_keeps_links(before);
        assert forall|i: int| 0 <= i < tasks.len() && (#[trigger] tasks[i]).status == TaskStatus::Running implies self.current == Some(i as usize) by {
            assert(before.tasks@[i].status == TaskStatus::Running);
        }
        let q = self.manager.ready_queue@;
        assert forall|j: int| 0 <= j < q.len() implies #[trigger] q[j] < tasks.len()
            && tasks[q[j] as int].status == TaskStatus::Ready by {
            assert(before.tasks@[q[j] as int].status == TaskStatus::Ready);
        }
    }

    /// Writes `data` into the running task's memory at `va`, all or nothing.
    pub fn write_current(&mut self, va: usize, data: &Vec<u8>) -> (r: bool)
        requires
            old(self).wf(),
            old(self).current is Some,
        ensures
            final(self).wf(),
            r == old(self).cur().memory_set.range_ok(va as int, data@.len() as int, true),
            !r ==> *final(self) == *old(self),
            final(self).current == old(self).current,
            final(self).manager == old(self).manager,
            final(self).apps == old(self).apps,
            r ==> ({
                let m = final(self).cur().memory_set;
                let om = old(self).cur().memory_set;
                &&& final(self).cur_memory_now(old(self), m)
                &&& m.same_layout(&om)
                &&& m.bytes(va as int, data@.len()) == data@
                &&& forall|k: int| 0 <= k < data@.len() ==> #[trigger] m.byte_at(va + k) == data@[k]
                &&& forall|a: int| om.mapped(vpn_of(a)) && !(va <= a < va + data@.len())
                    ==> #[trigger] m.byte_at(a) == om.byte_at(a)
            }),
    {
        let c = self.current.unwrap();
        assert(self.tasks@[c as int].wf());
        if !self.tasks[c].memory_set.check_range(va, data.len(), true) {
            return false;
        }
        let ok = self.tasks[c].memory_set.write_bytes(va, data);
        proof {
            let t = self.tasks@[c as int];
            assert(self.tasks@ =~= old(self).tasks@.update(c as int, t));
            if ok {
                self.lemma_update_current_wf(*old(self), t);
                assert(t == TaskControlBlock { memory_set: t.memory_set, ..old(self).cur() });
                assert(t.memory_set.bytes(va as int, data@.len()) =~= data@);
            }
        }
        ok
    }

    /// Dispatches the task that the scheduler picks: it becomes the running
    /// task, its stride advances by its pass, and its start time is recorded
    /// on its first dispatch. Returns its process id, or `None` when no task
    /// is ready.
    pub fn run_next(&mut self, now_ms: usize) -> (r: Option<usize>)
        requires
            old(self).wf(),
            old(self).current is None,
        ensures
            final(self).wf(),
            final(self).current == r,
            r is None <==> old(self).manager.ready_queue@.len() == 0,
            r is None ==> *final(self) == *old(self),
            final(self).tasks@.len() == old(self).tasks@.len(),
            final(self).manager.policy == old(self).manager.policy,
            r matches Some(pid) ==> {
                let t = old(self).tasks@[pid as int];
                let n = final(self).tasks@[pid as int];
                &&& exists|idx: int|
                    crate::manager::picked(
                        old(self).manager.ready_queue@,
                        old(self).strides(),
                        old(self).manager.policy,
                        idx,
                    ) && pid == old(self).manager.ready_queue@[idx]
                        && final(self).manager.ready_queue@ == old(self).manager.ready_queue@.remove(idx)
                &&& n.status == TaskStatus::Running
                &&& n.stride == advance(t.stride, pass_of(t.priority))
                &&& n.start_time == if t.start_time is Some {
                    t.start_time
                } else {
                    Some(now_ms)
                }
                &&& n == (TaskControlBlock {
                    status: n.status,
                    stride: n.stride,
                    start_time: n.start_time,
                    ..t
                })
                &&& forall|i: int| 0 <= i < final(self).tasks@.len() && i != pid ==> #[trigger] final(self).tasks@[i] == old(self).tasks@[i]
            },
    {
        let strides = self.collect_strides();
        let pid = match self.manager.fetch(&strides) {
            Some(p) => p,
            None => {
                return None;
            },
        };
        let ghost mid = *self;
        let t = &mut self.tasks[pid];
        t.status = TaskStatus::Running;
        let pass = BIG_STRIDE / t.priority;
        t.stride = if t.stride <= u64::MAX - pass {
            t.stride + pass
        } else {
            u64::MAX
        };
        if t.start_time.is_none() {
            t.start_time = Some(now_ms);
        }
        self.current = Some(pid);
        proof {
            let q = mid.manager.ready_queue@;
            let idx = choose|idx: int|
                crate::manager::picked(old(self).manager.ready_queue@, strides@, old(self).manager.policy, idx)
                    && pid == old(self).manager.ready_queue@[idx]
                    && q == old(self).manager.ready_queue@.remove(idx);
            assert(old(self).manager.ready_queue@[idx] < old(self).tasks@.len());
            assert forall|j: int| 0 <= j < q.len() implies #[trigger] q[j] < self.tasks@.len()
                && self.tasks@[q[j] as int].status == TaskStatus::Ready by {
                let oq = old(self).manager.ready_queue@;
                if j < idx {
                    assert(q[j] == oq[j]);
                } else {
                    assert(q[j] == oq[j + 1]);
                }
                assert(oq[j] < old(self).tasks@.len());
                assert(oq[j + 1] < old(self).tasks@.len() || j + 1 >= oq.len());
                assert(q[j] != pid);
            }
            lemma_remove_no_duplicates(old(self).manager.ready_queue@, idx);
            let tasks = self.tasks@;
            self.lemma_keeps_links(*old(self));
        }
        Some(pid)
    }

    /// Stride of each task, by process id.
    pub open spec fn strides(&self) -> Seq<u64> {
        self.tasks@.map_values(|t: TaskControlBlock| t.stride)
    }

    fn collect_strides(&self) -> (r: Vec<u64>)
        ensures
            r@ == self.strides(),
    {
        let mut v: Vec<u64> = Vec::new();
        let mut i: usize = 0;
        while i < self.tasks.len()
            invariant
                i <= self.tasks@.len(),
                v@ == self.strides().subrange(0, i as int),
            decreases self.tasks@.len() - i,
        {
            v.push(self.tasks[i].stride);
            i = i + 1;
            assert(v@ =~= self.strides().subrange(0, i as int));
        }
        assert(v@ =~= self.strides());
        v
    }

    /// Takes the running task off the core and queues it as ready.
    pub fn suspend_current(&mut self)
        requires
            old(self).wf(),
            old(self).current is Some,
        ensures
            final(self).wf(),
            final(self).current is None,
            final(self).manager.ready_queue@ == old(self).manager.ready_queue@.push(old(self).current->Some_0),
            final(self).manager.policy == old(self).manager.policy,
            final(self).tasks@ == old(self).tasks@.update(
                old(self).current->Some_0 as int,
                TaskControlBlock { status: TaskStatus::Ready, ..old(self).cur() },
            ),
    {
        let c = self.current.unwrap();
        self.tasks[c].status = TaskStatus::Ready;
        self.manager.add(c);
        self.current = None;
        proof {
            let tasks = self.tasks@;
            assert(tasks =~= old(self).tasks@.update(c as int, TaskControlBlock { status: TaskStatus::Ready, ..old(self).cur() }));
            self.lemma_keeps_links(*old(self));
            let q = self.manager.ready_queue@;
            assert forall|j: int| 0 <= j < q.len() implies #[trigger] q[j] < tasks.len()
                && tasks[q[j] as int].status == TaskStatus::Ready by {
                if j < q.len() - 1 {
                    assert(q[j] == old(self).manager.ready_queue@[j]);
                }
            }
            lemma_push_no_duplicates(old(self).manager.ready_queue@, c);
        }
    }

    /// Ends the running task with `exit_code`: it becomes a zombie, its
    /// memory is released and it leaves the core. Its children stay listed
    /// under it.
    pub fn exit_current(&mut self, exit_code: i32)
        requires
            old(self).wf(),
            old(self).current is Some,
        ensures
            final(self).wf(),
            final(self).current is None,
            final(self).manager == old(self).manager,
            final(self).tasks@.len() == old(self).tasks@.len(),
            ({
                let c = old(self).current->Some_0 as int;
                let n = final(self).tasks@[c];
                &&& n.status == TaskStatus::Zombie
                &&& n.exit_code == exit_code
                &&& forall|vpn: int| !n.memory_set.mapped(vpn)
                &&& n == (TaskControlBlock {
                    status: n.status,
                    exit_code: n.exit_code,
                    memory_set: n.memory_set,
                    ..old(self).cur()
                })
                &&& forall|i: int| 0 <= i < final(self).tasks@.len() && i != c ==> #[trigger] final(self).tasks@[i] == old(self).tasks@[i]
            }),
    {
        let c = self.current.unwrap();
        let t = &mut self.tasks[c];
        t.status = TaskStatus::Zombie;
        t.exit_code = exit_code;
        t.memory_set = MemorySet::empty();
        self.current = None;
        proof {
            let tasks = self.tasks@;
            self.lemma_keeps_links(*old(self));
            let q = self.manager.ready_queue@;
            assert forall|j: int| 0 <= j < q.len() implies #[trigger] q[j] < tasks.len()
                && tasks[q[j] as int].status == TaskStatus::Ready by {
                assert(old(self).tasks@[q[j] as int].status == TaskStatus::Ready);
            }
        }
    }

    /// Counts one invocation of system call `id` for the running task; the
    /// counter stays at its largest value once reached.
    pub fn count_syscall(&mut self, id: usize)
        requires
            old(self).wf(),
        ensures
            final(self).wf(),
            final(self).current == old(self).current,
            final(self).manager == old(self).manager,
            final(self).apps == old(self).apps,
            final(self).tasks@.len() == old(self).tasks@.len(),
            (old(self).current is None || id >= MAX_SYSCALL_NUM) ==> final(self).tasks@ == old(self).tasks@,
            old(self).current matches Some(c) ==> {
                let t = old(self).tasks@[c as int];
                let n = final(self).tasks@[c as int];
                &&& forall|i: int| 0 <= i < final(self).tasks@.len() && i != c ==> #[trigger] final(self).tasks@[i] == old(self).tasks@[i]
                &&& n == (TaskControlBlock { syscall_times: n.syscall_times, ..t })
                &&& id < MAX_SYSCALL_NUM ==> n.syscall_times@ == t.syscall_times@.update(
                    id as int,
                    if t.syscall_times@[id as int] < u32::MAX {
                        (t.syscall_times@[id as int] + 1) as u32
                    } else {
                        u32::MAX
                    },
                )
                &&& id >= MAX_SYSCALL_NUM ==> n == t
            },
    {
        let c = match self.current {
            Some(c) => c,
            None => {
                return;
            },
        };
        if id >= MAX_SYSCALL_NUM {
            return;
        }
        assert(self.tasks@[c as int].wf());
        let t = &mut self.tasks[c];
        let v = t.syscall_times[id];
        if v < u32::MAX {
            t.syscall_times[id] = v + 1;
        }
        proof {
            let tasks = self.tasks@;
            self.lemma_keeps_links(*old(self));
            let q = self.manager.ready_queue@;
            assert forall|j: int| 0 <= j < q.len() implies #[trigger] q[j] < tasks.len()
                && tasks[q[j] as int].status == TaskStatus::Ready by {
                assert(old(self).tasks@[q[j] as int].status == TaskStatus::Ready);
            }
        }
    }
}

/// Queues a ready task that is not queued yet.
pub fn add_task(k: &mut Kernel, pid: usize)
    requires
        old(k).wf(),
        pid < old(k).tasks@.len(),
        old(k).tasks@[pid as int].status == TaskStatus::Ready,
        !old(k).manager.ready_queue@.contains(pid),
    ensures
        final(k).wf(),
        final(k).manager.ready_queue@ == old(k).manager.ready_queue@.push(pid),
        final(k).tasks@ == old(k).tasks@,
        final(k).current == old(k).current,
{
    k.manager.add(pid);
    proof {
        let q = old(k).manager.ready_queue@;
        assert forall|j: int| 0 <= j < q.len() implies #[trigger] q[j] != pid by {
            if q[j] == pid {
                assert(q.contains(pid));
            }
        }
        lemma_push_no_duplicates(q, pid);
        let nq = k.manager.ready_queue@;
        assert forall|j: int| 0 <= j < nq.len() implies #[trigger] nq[j] < k.tasks@.len()
            && k.tasks@[nq[j] as int].status == TaskStatus::Ready by {
            if j < q.len() {
                assert(nq[j] == q[j]);
            }
        }
    }
}

/// Takes out of the queue the task that the scheduler picks, without
/// dispatching it.
pub fn fetch_task(k: &mut Kernel) -> (r: Option<usize>)
    requires
        old(k).wf(),
    ensures
        final(k).wf(),
        final(k).tasks@ == old(k).tasks@,
        final(k).current == old(k).current,
        r is None <==> old(k).manager.ready_queue@.len() == 0,
        r matches Some(pid) ==> exists|idx: int|
            crate::manager::picked(old(k).manager.ready_queue@, old(k).strides(), old(k).manager.policy, idx)
                && pid == old(k).manager.ready_queue@[idx]
                && final(k).manager.ready_queue@ == old(k).manager.ready_queue@.remove(idx),
{
    let strides = k.collect_strides();
    let r = k.manager.fetch(&strides);
    proof {
        if r is Some {
            let oq = old(k).manager.ready_queue@;
            let idx = choose|idx: int|
                crate::manager::picked(oq, strides@, old(k).manager.policy, idx)
                    && r->Some_0 == oq[idx]
                    && k.manager.ready_queue@ == oq.remove(idx);
            lemma_remove_no_duplicates(oq, idx);
            let q = k.manager.ready_queue@;
            assert forall|j: int| 0 <= j < q.len() implies #[trigger] q[j] < k.tasks@.len()
                && k.tasks@[q[j] as int].status == TaskStatus::Ready by {
                if j < idx {
                    assert(q[j] == oq[j]);
                } else {
                    assert(q[j] == oq[j + 1]);
                }
            }
        }
    }
    r
}

/// Of two priorities, the larger never gets the larger pass: a task of
/// higher priority advances its stride by no more per dispatch.
pub proof fn lemma_pass_order(p1: u64, p2: u64)
    requires
        2 <= p1 <= p2,
    ensures
        pass_of(p2) <= pass_of(p1),
        pass_of(p1) <= BIG_STRIDE / 2,
{
    assert((BIG_STRIDE as int) / (p2 as int) <= (BIG_STRIDE as int) / (p1 as int)) by (nonlinear_arith)
        requires
            2 <= p1 <= p2,
    ;
    assert((BIG_STRIDE as int) / (p1 as int) <= (BIG_STRIDE as int) / 2) by (nonlinear_arith)
        requires
            2 <= p1,
    ;
}

} // verus!
