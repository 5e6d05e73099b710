//! Process-management system calls on an explicit kernel context.
use vstd::prelude::*;

use crate::config::{APP_BASE, MAX_SYSCALL_NUM, MAX_TASKS, PAGE_SIZE, USER_END, USER_STACK_SIZE};
use crate::mm::{can_insert, can_remove, vpn_of, MapPermission, MemorySet};
use crate::task::{Kernel, TaskControlBlock, TaskStatus, TrapContext};

verus! {

/// A point in time, as copied to user memory.
#[derive(Clone, Copy, PartialEq, Eq, Structural, Debug)]
pub struct TimeVal {
    pub sec: usize,
    pub usec: usize,
}

/// What `sys_task_info` reports about the calling task.
pub struct TaskInfo {
    /// Task status in its life cycle.
    pub status: TaskStatus,
    /// Number of calls of each system call by the task.
    pub syscall_times: Vec<u32>,
    /// Milliseconds since the task was first dispatched.
    pub time: usize,
}

/// The low `n` bytes of `x`, least significant first.
pub open spec fn le_bytes(x: nat, n: nat) -> Seq<u8>
    decreases n,
{
    if n == 0 {
        Seq::empty()
    } else {
        seq![(x % 256) as u8] + le_bytes(x / 256, (n - 1) as nat)
    }
}

/// Appends the low `n` bytes of `x`, least significant first.
pub fn push_le(out: &mut Vec<u8>, x: u64, n: usize)
    requires
        n <= 8,
    ensures
        final(out)@ == old(out)@ + le_bytes(x as nat, n as nat),
{
    let mut v: u64 = x;
    let mut i: usize = 0;
    while i < n
        invariant
            i <= n,
            out@ + le_bytes(v as nat, (n - i) as nat) == old(out)@ + le_bytes(x as nat, n as nat),
        decreases n - i,
    {
        let b = (v % 256) as u8;
        proof {
            let m = (n - i) as nat;
            assert(le_bytes(v as nat, m) == seq![b] + le_bytes((v / 256) as nat, (m - 1) as nat));
            assert(out@.push(b) + le_bytes((v / 256) as nat, (m - 1) as nat) =~= out@ + le_bytes(
                v as nat,
                m,
            ));
        }
        out.push(b);
        v = v / 256;
        i = i + 1;
    }
    assert(le_bytes(v as nat, 0) =~= Seq::<u8>::empty());
    assert(out@ =~= out@ + le_bytes(v as nat, 0));
}

/// Byte that stands for a status in user memory.
pub open spec fn status_code(s: TaskStatus) -> u8 {
    match s {
        TaskStatus::UnInit => 0,
        TaskStatus::Ready => 1,
        TaskStatus::Running => 2,
        TaskStatus::Zombie => 3,
    }
}

/// Each counter as four little-endian bytes, in order.
pub open spec fn counts_bytes(s: Seq<u32>) -> Seq<u8>
    decreases s.len(),
{
    if s.len() == 0 {
        Seq::empty()
    } else {
        counts_bytes(s.drop_last()) + le_bytes(s.last() as nat, 4)
    }
}

impl TimeVal {
    /// Layout in user memory: seconds, then microseconds, each eight bytes.
    pub open spec fn wire(&self) -> Seq<u8> {
        le_bytes(self.sec as nat, 8) + le_bytes(self.usec as nat, 8)
    }

    pub fn to_bytes(&self) -> (r: Vec<u8>)
        ensures
            r@ == self.wire(),
    {
        let mut out: Vec<u8> = Vec::new();
        push_le(&mut out, self.sec as u64, 8);
        push_le(&mut out, self.usec as u64, 8);
        assert(out@ =~= self.wire());
        out
    }
}

impl TaskInfo {
    /// There is one counter for each system-call number.
    pub open spec fn wf(&self) -> bool {
        self.syscall_times@.len() == MAX_SYSCALL_NUM
    }

    /// A ready task that has made no call and has run for no time.
    pub fn new() -> (r: TaskInfo)
        ensures
            r.wf(),
            r.status == TaskStatus::Ready,
            r.syscall_times@.len() == MAX_SYSCALL_NUM,
            forall|i: int| 0 <= i < MAX_SYSCALL_NUM ==> r.syscall_times@[i] == 0,
            r.time == 0,
    {
        TaskInfo { status: TaskStatus::Ready, syscall_times: crate::task::zero_counts(), time: 0 }
    }

    /// Layout in user memory, as `info_wire` gives it.
    pub open spec fn wire(&self) -> Seq<u8> {
        info_wire(self.status, self.syscall_times@, self.time)
    }

    pub fn to_bytes(&self) -> (r: Vec<u8>)
        ensures
            r@ == self.wire(),
            self.wf() ==> r@.len() == 2016,
    {
        proof {
            if self.wf() {
                lemma_info_wire_len(self.status, self.syscall_times@, self.time);
            }
        }
        info_bytes(self.status, &self.syscall_times, self.time)
    }
}

/// Layout of a task's report in user memory: the status byte, three bytes of
/// padding, the counters, four bytes of padding, and the time in eight bytes.
pub open spec fn info_wire(status: TaskStatus, times: Seq<u32>, time: usize) -> Seq<u8> {
    seq![status_code(status), 0u8, 0u8, 0u8] + counts_bytes(times) + seq![0u8, 0u8, 0u8, 0u8]
        + le_bytes(time as nat, 8)
}

/// Encodes a task's report as it is laid out in user memory.
pub fn info_bytes(status: TaskStatus, times: &Vec<u32>, time: usize) -> (r: Vec<u8>)
    ensures
        r@ == info_wire(status, times@, time),
{
        let code: u8 = match status {
            TaskStatus::UnInit => 0,
            TaskStatus::Ready => 1,
            TaskStatus::Running => 2,
            TaskStatus::Zombie => 3,
        };
        let mut out: Vec<u8> = Vec::new();
        out.push(code);
        out.push(0);
        out.push(0);
        out.push(0);
        let ghost head = out@;
        let mut i: usize = 0;
        while i < times.len()
            invariant
                i <= times@.len(),
                out@ == head + counts_bytes(times@.subrange(0, i as int)),
            decreases times@.len() - i,
        {
            proof {
                let s = times@.subrange(0, i as int + 1);
                assert(s.drop_last() =~= times@.subrange(0, i as int));
            }
            push_le(&mut out, times[i] as u64, 4);
            i = i + 1;
        }
        assert(times@.subrange(0, i as int) =~= times@);
        out.push(0);
        out.push(0);
        out.push(0);
        out.push(0);
        push_le(&mut out, time as u64, 8);
        assert(out@ =~= info_wire(status, times@, time));
        out
}


/// `port` asks for at least one of read, write and execute, and for nothing
/// else.
pub open spec fn valid_port(port: usize) -> bool {
    port & 7 != 0 && port & !7usize == 0
}

/// `x` rounded up to a page boundary.
pub open spec fn round_up(x: int) -> int {
    crate::mm::vpn_ceil(x) * PAGE_SIZE
}

/// Process id of the running task.
pub fn sys_getpid(k: &Kernel) -> (r: isize)
    requires
        k.wf(),
        k.current is Some,
    ensures
        r == k.current->Some_0,
{
    k.current.unwrap() as isize
}

/// Gives up the core: the running task is queued as ready and the scheduler
/// dispatches the task it picks, possibly the same one. Returns 0.
pub fn sys_yield(k: &mut Kernel, now_ms: usize) -> (r: isize)
    requires
        old(k).wf(),
        old(k).current is Some,
    ensures
        final(k).wf(),
        r == 0,
        ({
            let c = old(k).current->Some_0;
            let q = old(k).manager.ready_queue@.push(c);
            let p = final(k).current->Some_0;
            &&& final(k).current is Some
            &&& exists|idx: int|
                crate::manager::picked(q, old(k).strides(), old(k).manager.policy, idx) && p == q[idx]
                    && final(k).manager.ready_queue@ == q.remove(idx)
            &&& final(k).tasks@.len() == old(k).tasks@.len()
            &&& final(k).tasks@[p as int].status == TaskStatus::Running
            &&& final(k).tasks@[p as int].stride == crate::task::advance(
                old(k).tasks@[p as int].stride,
                crate::task::pass_of(old(k).tasks@[p as int].priority),
            )
            &&& p != c ==> final(k).tasks@[c as int] == (TaskControlBlock {
                status: TaskStatus::Ready,
                ..old(k).cur()
            })
            &&& forall|i: int|
                0 <= i < old(k).tasks@.len() && i != c && i != p ==> #[trigger] final(k).tasks@[i]
                    == old(k).tasks@[i]
            &&& final(k).tasks@[c as int].syscall_times == old(k).cur().syscall_times
        }),
{
    k.suspend_current();
    proof {
        assert(k.strides() =~= old(k).strides());
    }
    let _ = k.run_next(now_ms);
    0
}

/// Ends the running task with `exit_code` and dispatches the next ready
/// task, if any. The ended task is a zombie until its parent reaps it.
pub fn sys_exit(k: &mut Kernel, exit_code: i32, now_ms: usize)
    requires
        old(k).wf(),
        old(k).current is Some,
    ensures
        final(k).wf(),
        ({
            let c = old(k).current->Some_0 as int;
            let n = final(k).tasks@[c];
            &&& final(k).tasks@.len() == old(k).tasks@.len()
            &&& n.status == TaskStatus::Zombie
            &&& n.exit_code == exit_code
            &&& forall|vpn: int| !n.memory_set.mapped(vpn)
            &&& n == (TaskControlBlock {
                status: n.status,
                exit_code: n.exit_code,
                memory_set: n.memory_set,
                ..old(k).cur()
            })
            &&& final(k).current is None <==> old(k).manager.ready_queue@.len() == 0
            &&& final(k).current is None ==> final(k).manager == old(k).manager
            &&& final(k).current matches Some(p) ==> exists|idx: int|
                crate::manager::picked(
                    old(k).manager.ready_queue@,
                    old(k).strides(),
                    old(k).manager.policy,
                    idx,
                ) && p == old(k).manager.ready_queue@[idx] && final(k).manager.ready_queue@
                    == old(k).manager.ready_queue@.remove(idx)
            &&& forall|i: int|
                0 <= i < old(k).tasks@.len() && i != c && Some(i as usize) != final(k).current
                    ==> #[trigger] final(k).tasks@[i] == old(k).tasks@[i]
            &&& final(k).current matches Some(p) ==> {
                let t = old(k).tasks@[p as int];
                let m = final(k).tasks@[p as int];
                &&& p != c
                &&& m.status == TaskStatus::Running
                &&& m.stride == crate::task::advance(t.stride, crate::task::pass_of(t.priority))
                &&& m == (TaskControlBlock { status: m.status, stride: m.stride, start_time: m.start_time, ..t })
            }
        }),
{
    let c = k.current.unwrap();
    k.exit_current(exit_code);
    proof {
        assert(k.strides() =~= old(k).strides());
    }
    let ghost mid = *k;
    let next = k.run_next(now_ms);
    proof {
        if let Some(p) = next {
            assert(k.tasks@[p as int].status == TaskStatus::Running);
            assert(mid.tasks@[p as int].status == TaskStatus::Ready);
            assert(p != c);
            assert(mid.tasks@[p as int] == old(k).tasks@[p as int]);
        }
    }
}

/// Sets the running task's priority; refused with -1 below 2.
pub fn sys_set_priority(k: &mut Kernel, prio: isize) -> (r: isize)
    requires
        old(k).wf(),
        old(k).current is Some,
    ensures
        final(k).wf(),
        prio < 2 ==> r == -1 && final(k).same_as(old(k)),
        prio >= 2 ==> r == prio && final(k).current == old(k).current && final(k).manager == old(
            k,
        ).manager && final(k).tasks@ == old(k).tasks@.update(
            old(k).current->Some_0 as int,
            TaskControlBlock { priority: prio as u64, ..old(k).cur() },
        ),
{
    if prio < 2 {
        return -1;
    }
    let c = k.current.unwrap();
    k.tasks[c].priority = prio as u64;
    proof {
        let t = k.tasks@[c as int];
        assert(k.tasks@ =~= old(k).tasks@.update(c as int, t));
        assert(old(k).tasks@[c as int].wf());
        k.lemma_update_current_wf(*old(k), t);
    }
    prio
}

/// Moves the running task's program break by `size` bytes; returns the
/// previous break, or -1 when the move is not allowed.
pub fn sys_sbrk(k: &mut Kernel, size: i32) -> (r: isize)
    requires
        old(k).wf(),
        old(k).current is Some,
    ensures
        final(k).wf(),
        ({
            let ms = old(k).cur().memory_set;
            let nm = final(k).cur().memory_set;
            &&& ms.brk_change_ok(size as int) ==> {
                &&& r == ms.program_brk
                &&& final(k).cur_memory_now(old(k), nm)
                &&& nm.program_brk == ms.program_brk + size
                &&& nm.heap_bottom == ms.heap_bottom
                &&& nm.areas@.len() == ms.areas@.len()
                &&& forall|i: int| 1 <= i < ms.areas@.len() ==> #[trigger] nm.areas@[i] == ms.areas@[i]
                &&& nm.range_ok(nm.heap_bottom as int, nm.program_brk - nm.heap_bottom, true)
                &&& size == 0 ==> nm.areas@[0].span() == ms.areas@[0].span() && nm.areas@[0].data@
                    == ms.areas@[0].data@
            }
            &&& !ms.brk_change_ok(size as int) ==> r == -1 && final(k).same_as(old(k))
        }),
{
    let c = k.current.unwrap();
    assert(k.tasks@[c as int].wf());
    let res = k.tasks[c].memory_set.change_program_brk(size);
    proof {
        let t = k.tasks@[c as int];
        t.memory_set.lemma_heap_accessible();
        if size == 0 && res is Some {
            assert(t.memory_set.areas@[0].data@ =~= old(k).cur().memory_set.areas@[0].data@);
        }
        assert(k.tasks@ =~= old(k).tasks@.update(c as int, t));
        k.lemma_update_current_wf(*old(k), t);
        if t == old(k).cur() {
            assert(k.tasks@ =~= old(k).tasks@);
        }
    }
    match res {
        Some(b) => b as isize,
        None => -1,
    }
}

/// Maps `[start, start + len)`, rounded up to whole pages, as a new area with
/// the rights in `port` (bit 0 read, bit 1 write, bit 2 execute). Returns 0,
/// or -1 when `port` is invalid, `start` is not page-aligned, the range is
/// empty or ends above user space (`USER_END`, 1 GiB), or it overlaps a
/// mapped area.
pub fn sys_mmap(k: &mut Kernel, start: usize, len: usize, port: usize) -> (r: isize)
    requires
        old(k).wf(),
        old(k).current is Some,
    ensures
        final(k).wf(),
        r == 0 || r == -1,
        r == 0 <==> valid_port(port) && can_insert(
            old(k).cur().memory_set.spans(),
            start as int,
            round_up(start + len),
        ),
        r == -1 ==> final(k).same_as(old(k)),
        final(k).current == old(k).current,
        final(k).manager == old(k).manager,
        r == 0 ==> ({
            let ms = old(k).cur().memory_set;
            let nm = final(k).cur().memory_set;
            &&& final(k).cur_memory_now(old(k), nm)
            &&& nm.spans() == ms.spans().push(
                (vpn_of(start as int), vpn_of(round_up(start + len))),
            )
            &&& forall|i: int| 0 <= i < ms.areas@.len() ==> #[trigger] nm.areas@[i] == ms.areas@[i]
            &&& nm.heap_bottom == ms.heap_bottom
            &&& nm.program_brk == ms.program_brk
            &&& nm.areas@.last().perm == (MapPermission {
                r: port & 1 != 0,
                w: port & 2 != 0,
                x: port & 4 != 0,
                u: true,
            })
            &&& forall|j: int| 0 <= j < nm.areas@.last().data@.len() ==> #[trigger] nm.areas@.last().data@[j] == 0
        }),
{
    if (port & 0x7 == 0) || (port & !0x7 != 0) || (start & (PAGE_SIZE - 1) != 0) {
        proof {
            assert((start & 4095usize != 0) == (start % 4096 != 0)) by (bit_vector);
        }
        return -1;
    }
    proof {
        assert((start & 4095usize != 0) == (start % 4096 != 0)) by (bit_vector);
    }
    if start > USER_END || len > USER_END {
        return -1;
    }
    let end = (start + len + PAGE_SIZE - 1) / PAGE_SIZE * PAGE_SIZE;
    let c = k.current.unwrap();
    assert(k.tasks@[c as int].wf());
    let perm = MapPermission::from_port(port);
    let res = k.tasks[c].memory_set.insert_area(start, end, perm);
    proof {
        let t = k.tasks@[c as int];
        assert(k.tasks@ =~= old(k).tasks@.update(c as int, t));
        k.lemma_update_current_wf(*old(k), t);
        if t == old(k).cur() {
            assert(k.tasks@ =~= old(k).tasks@);
        }
    }
    match res {
        Ok(()) => 0,
        Err(_) => -1,
    }
}

/// Unmaps the area whose span is exactly `[start, start + len)` rounded up to
/// whole pages. Returns 0, or -1 when `start` is not page-aligned or no such
/// area is mapped. Unmapping the heap's exact span empties the heap and puts
/// the break back at the heap origin.
pub fn sys_munmap(k: &mut Kernel, start: usize, len: usize) -> (r: isize)
    requires
        old(k).wf(),
        old(k).current is Some,
    ensures
        final(k).wf(),
        r == 0 || r == -1,
        r == 0 <==> can_remove(old(k).cur().memory_set.spans(), start as int, round_up(start + len)),
        r == -1 ==> final(k).same_as(old(k)),
        final(k).current == old(k).current,
        final(k).manager == old(k).manager,
        r == 0 ==> ({
            let ms = old(k).cur().memory_set;
            let nm = final(k).cur().memory_set;
            &&& final(k).cur_memory_now(old(k), nm)
            &&& nm.heap_bottom == ms.heap_bottom
            &&& exists|i: int| {
                &&& #[trigger] crate::mm::removable_at(
                    ms.spans(),
                    i,
                    vpn_of(start as int),
                    vpn_of(round_up(start + len)),
                )
                &&& nm.spans() == crate::mm::spans_after_remove(ms.spans(), i)
                &&& i >= 1 ==> nm.areas@ == ms.areas@.remove(i) && nm.program_brk == ms.program_brk
                &&& i == 0 ==> nm.program_brk == nm.heap_bottom && nm.areas@[0].data@.len() == 0
                    && nm.areas@.len() == ms.areas@.len()
                    && forall|j: int| 1 <= j < ms.areas@.len() ==> #[trigger] nm.areas@[j] == ms.areas@[j]
            }
        }),
{
    let c = k.current.unwrap();
    assert(k.tasks@[c as int].wf());
    if start & (PAGE_SIZE - 1) != 0 {
        proof {
            assert((start & 4095usize != 0) == (start % 4096 != 0)) by (bit_vector);
        }
        return -1;
    }
    if start > USER_END || len > USER_END {
        proof {
            let ms = old(k).cur().memory_set;
            if can_remove(ms.spans(), start as int, round_up(start + len)) {
                let i = choose|i: int|
                    #[trigger] crate::mm::removable_at(
                        ms.spans(),
                        i,
                        crate::mm::vpn_of(start as int),
                        crate::mm::vpn_of(round_up(start + len)),
                    );
                assert(ms.areas@[i].wf());
                assert(ms.spans()[i] == ms.areas@[i].span());
            }
        }
        return -1;
    }
    let end = (start + len + PAGE_SIZE - 1) / PAGE_SIZE * PAGE_SIZE;
    let res = k.tasks[c].memory_set.remove_area(start, end);
    proof {
        let t = k.tasks@[c as int];
        assert(k.tasks@ =~= old(k).tasks@.update(c as int, t));
        k.lemma_update_current_wf(*old(k), t);
        if t == old(k).cur() {
            assert(k.tasks@ =~= old(k).tasks@);
        }
        if res is Ok {
            let ms = old(k).cur().memory_set;
            let nm = t.memory_set;
            let i = choose|i: int| {
                &&& #[trigger] crate::mm::removable_at(ms.spans(), i, vpn_of(start as int), vpn_of(end as int))
                &&& nm.spans() == crate::mm::spans_after_remove(ms.spans(), i)
                &&& i >= 1 ==> nm.areas@ == ms.areas@.remove(i) && nm.program_brk == ms.program_brk
                &&& i == 0 ==> {
                    &&& nm.program_brk == nm.heap_bottom
                    &&& nm.areas@.len() == ms.areas@.len()
                    &&& nm.areas@[0].perm == ms.areas@[0].perm
                    &&& nm.areas@[0].data@.len() == 0
                    &&& forall|j: int| 1 <= j < ms.areas@.len() ==> #[trigger] nm.areas@[j] == ms.areas@[j]
                }
            };
            assert(end as int == round_up(start + len));
            assert(crate::mm::removable_at(ms.spans(), i, vpn_of(start as int), vpn_of(round_up(start + len))));
        }
    }
    match res {
        Ok(()) => 0,
        Err(_) => -1,
    }
}

/// Writes the time `now_us` (microseconds) as a `TimeVal` at `ts` in the
/// running task's memory. Returns 0, or -1 when that memory is not writable.
pub fn sys_get_time(k: &mut Kernel, ts: usize, _tz: usize, now_us: usize) -> (r: isize)
    requires
        old(k).wf(),
        old(k).current is Some,
    ensures
        final(k).wf(),
        r == 0 || r == -1,
        r == 0 <==> old(k).cur().memory_set.range_ok(ts as int, 16, true),
        r == -1 ==> final(k).same_as(old(k)),
        final(k).current == old(k).current,
        r == 0 ==> ({
            let ms = old(k).cur().memory_set;
            let nm = final(k).cur().memory_set;
            &&& final(k).cur_memory_now(old(k), nm)
            &&& nm.same_layout(&ms)
            &&& forall|a: int| ms.mapped(vpn_of(a)) && !(ts <= a < ts + 16)
                ==> #[trigger] nm.byte_at(a) == ms.byte_at(a)
            &&& nm.bytes(ts as int, 16) == (TimeVal {
                sec: now_us / 1_000_000,
                usec: now_us % 1_000_000,
            }).wire()
        }),
{
    let time = TimeVal { sec: now_us / 1_000_000, usec: now_us % 1_000_000 };
    let bytes = time.to_bytes();
    proof {
        lemma_le_bytes_len(time.sec as nat, 8);
        lemma_le_bytes_len(time.usec as nat, 8);
    }
    if k.write_current(ts, &bytes) {
        0
    } else {
        -1
    }
}

/// Milliseconds that the running task has existed since its first dispatch.
pub open spec fn elapsed_ms(t: TaskControlBlock, now_ms: usize) -> usize {
    match t.start_time {
        Some(s) => if now_ms >= s {
            (now_ms - s) as usize
        } else {
            0
        },
        None => 0,
    }
}

/// Writes a `TaskInfo` for the running task (its status, its call counters,
/// and the time since its first dispatch) at `ti` in its memory. Returns 0,
/// or -1 when that memory is not writable.
pub fn sys_task_info(k: &mut Kernel, ti: usize, now_ms: usize) -> (r: isize)
    requires
        old(k).wf(),
        old(k).current is Some,
    ensures
        final(k).wf(),
        r == 0 || r == -1,
        r == 0 <==> old(k).cur().memory_set.range_ok(ti as int, 2016, true),
        r == -1 ==> final(k).same_as(old(k)),
        final(k).current == old(k).current,
        r == 0 ==> ({
            let ms = old(k).cur().memory_set;
            let nm = final(k).cur().memory_set;
            &&& final(k).cur_memory_now(old(k), nm)
            &&& nm.same_layout(&ms)
            &&& forall|a: int| ms.mapped(vpn_of(a)) && !(ti <= a < ti + 2016)
                ==> #[trigger] nm.byte_at(a) == ms.byte_at(a)
            &&& nm.bytes(ti as int, 2016) == info_wire(
                old(k).cur().status,
                old(k).cur().syscall_times@,
                elapsed_ms(old(k).cur(), now_ms),
            )
        }),
{
    let c = k.current.unwrap();
    let time = match k.tasks[c].start_time {
        Some(s) => if now_ms >= s {
            now_ms - s
        } else {
            0
        },
        None => 0,
    };
    let bytes = info_bytes(k.tasks[c].status, &k.tasks[c].syscall_times, time);
    proof {
        assert(old(k).cur().wf());
        lemma_info_wire_len(old(k).cur().status, old(k).cur().syscall_times@, time);
    }
    if k.write_current(ti, &bytes) {
        0
    } else {
        -1
    }
}

/// Index of the program named by the NUL-terminated string at `path` in the
/// running task's memory.
fn app_at_path(k: &Kernel, path: usize) -> (r: Option<usize>)
    requires
        k.wf(),
        k.current is Some,
    ensures
        r matches Some(i) ==> i < k.apps@.len() && k.cur().memory_set.str_at(path as int, k.apps@[i as int].name@),
        r is None ==> forall|i: int| 0 <= i < k.apps@.len() ==> !k.cur().memory_set.str_at(path as int, #[trigger] k.apps@[i].name@),
{
    let c = k.current.unwrap();
    assert(k.tasks@[c as int].wf());
    match k.tasks[c].memory_set.translated_str(path) {
        None => None,
        Some(name) => {
            let r = k.find_app(&name);
            proof {
                assert forall|i: int| 0 <= i < k.apps@.len() && k.cur().memory_set.str_at(path as int, #[trigger] k.apps@[i].name@) implies k.apps@[i].name@ == name@ by {
                    let ms = k.cur().memory_set;
                    let a = k.apps@[i].name@;
                    if a.len() < name@.len() {
                        assert(name@[a.len() as int] == ms.bytes(path as int, name@.len())[a.len() as int]);
                    } else if a.len() > name@.len() {
                        assert(a[name@.len() as int] == ms.bytes(path as int, a.len())[name@.len() as int]);
                    } else {
                        assert(a =~= name@);
                    }
                }
            }
            r
        },
    }
}

/// Creates a child of the running task with a copy of its memory, registers,
/// priority and stride, and queues it. The child's system-call result
/// register is 0 and its counters start at 0. Returns the child's process id,
/// or -1 when the process table is full.
pub fn sys_fork(k: &mut Kernel) -> (r: isize)
    requires
        old(k).wf(),
        old(k).current is Some,
    ensures
        final(k).wf(),
        final(k).current == old(k).current,
        old(k).tasks@.len() >= MAX_TASKS ==> r == -1 && final(k).same_as(old(k)),
        old(k).tasks@.len() < MAX_TASKS ==> {
            let c = old(k).current->Some_0 as int;
            let p = old(k).cur();
            let child = final(k).tasks@[r as int];
            &&& r == old(k).tasks@.len()
            &&& final(k).tasks@.len() == old(k).tasks@.len() + 1
            &&& child.parent == Some(c as usize)
            &&& child.status == TaskStatus::Ready
            &&& child.priority == p.priority
            &&& child.stride == p.stride
            &&& child.trap_cx == (TrapContext { x10: 0, ..p.trap_cx })
            &&& child.children@.len() == 0
            &&& child.start_time is None
            &&& forall|i: int| 0 <= i < MAX_SYSCALL_NUM ==> child.syscall_times@[i] == 0
            &&& child.memory_set.spans() == p.memory_set.spans()
            &&& child.memory_set.same_layout(&p.memory_set)
            &&& child.memory_set.wf()
            &&& !child.reaped
            &&& forall|a: int| p.memory_set.mapped(vpn_of(a)) ==> #[trigger] child.memory_set.byte_at(a) == p.memory_set.byte_at(a)
            &&& final(k).tasks@[c].children@ == p.children@.push(r as usize)
            &&& final(k).tasks@[c] == (TaskControlBlock { children: final(k).tasks@[c].children, ..p })
            &&& final(k).manager.ready_queue@ == old(k).manager.ready_queue@.push(r as usize)
            &&& forall|i: int| 0 <= i < old(k).tasks@.len() && i != c ==> #[trigger] final(k).tasks@[i] == old(k).tasks@[i]
        },
{
    let c = k.current.unwrap();
    let pid = k.tasks.len();
    if pid >= MAX_TASKS {
        return -1;
    }
    assert(k.tasks@[c as int].wf());
    let ms = k.tasks[c].memory_set.duplicate();
    let parent_cx = k.tasks[c].trap_cx;
    let child = TaskControlBlock {
        pid,
        parent: Some(c),
        children: Vec::new(),
        status: TaskStatus::Ready,
        exit_code: 0,
        priority: k.tasks[c].priority,
        stride: k.tasks[c].stride,
        syscall_times: crate::task::zero_counts(),
        start_time: None,
        trap_cx: TrapContext { x10: 0, sp: parent_cx.sp, sepc: parent_cx.sepc },
        memory_set: ms,
        reaped: false,
    };
    k.tasks.push(child);
    k.tasks[c].children.push(pid);
    k.manager.add(pid);
    proof {
        k.lemma_push_task_wf(*old(k), pid, Some(c));
    }
    pid as isize
}

/// Replaces the running task's memory by a fresh one loaded from the program
/// named by the string at `path`, and resets its registers to the program's
/// entry point and stack. Returns 0, or -1 when no program has that name.
pub fn sys_exec(k: &mut Kernel, path: usize) -> (r: isize)
    requires
        old(k).wf(),
        old(k).current is Some,
    ensures
        final(k).wf(),
        final(k).current == old(k).current,
        final(k).manager == old(k).manager,
        r == 0 || r == -1,
        r == -1 <==> forall|i: int| 0 <= i < old(k).apps@.len() ==> !old(k).cur().memory_set.str_at(path as int, #[trigger] old(k).apps@[i].name@),
        r == -1 ==> final(k).same_as(old(k)),
        r == 0 ==> exists|i: int| {
            &&& 0 <= i < old(k).apps@.len()
            &&& old(k).cur().memory_set.str_at(path as int, #[trigger] old(k).apps@[i].name@)
            &&& final(k).cur().memory_set.bytes(APP_BASE as int, old(k).apps@[i].image@.len()) == old(k).apps@[i].image@
        },
        r == 0 ==> final(k).tasks@ == old(k).tasks@.update(
            old(k).current->Some_0 as int,
            TaskControlBlock {
                memory_set: final(k).cur().memory_set,
                trap_cx: final(k).cur().trap_cx,
                ..old(k).cur()
            },
        ),
        r == 0 ==> final(k).cur().trap_cx == (TrapContext {
            x10: 0,
            sp: final(k).cur().memory_set.heap_bottom,
            sepc: APP_BASE,
        }),
        r == 0 ==> ({
            let nm = final(k).cur().memory_set;
            &&& nm.heap_bottom == nm.program_brk
            &&& nm.range_ok(nm.heap_bottom - USER_STACK_SIZE, USER_STACK_SIZE as int, true)
            &&& exists|i: int| 0 <= i < old(k).apps@.len() && old(k).cur().memory_set.str_at(path as int, #[trigger] old(k).apps@[i].name@)
                && nm.spans() == crate::mm::image_spans(old(k).apps@[i].image@.len(), nm.heap_bottom as int)
                && crate::mm::is_image_space(nm, old(k).apps@[i].image@)
                && nm.range_ok(APP_BASE as int, old(k).apps@[i].image@.len() as int, false)
        }),
{
    let idx = match app_at_path(k, path) {
        None => {
            return -1;
        },
        Some(i) => i,
    };
    let c = k.current.unwrap();
    assert(k.apps@[idx as int].image@.len() <= crate::config::MAX_APP_SIZE);
    let (ms, sp) = match MemorySet::from_image(&k.apps[idx].image) {
        Some(p) => p,
        None => {
            return -1;
        },
    };
    let ghost image = k.apps@[idx as int].image@;
    k.tasks[c].memory_set = ms;
    k.tasks[c].trap_cx = TrapContext { x10: 0, sp, sepc: APP_BASE };
    proof {
        let t = k.tasks@[c as int];
        assert(k.tasks@ =~= old(k).tasks@.update(c as int, t));
        assert(old(k).cur().wf());
        k.lemma_update_current_wf(*old(k), t);
        assert(old(k).cur().memory_set.str_at(path as int, old(k).apps@[idx as int].name@));
    }
    0
}

/// Creates a child of the running task from the program named by the string
/// at `path` and queues it. Returns the child's process id, or -1 when no
/// program has that name or the process table is full.
pub fn sys_spawn(k: &mut Kernel, path: usize) -> (r: isize)
    requires
        old(k).wf(),
        old(k).current is Some,
    ensures
        final(k).wf(),
        final(k).current == old(k).current,
        r == -1 <==> (old(k).tasks@.len() >= MAX_TASKS || forall|i: int| 0 <= i < old(k).apps@.len() ==> !old(k).cur().memory_set.str_at(path as int, #[trigger] old(k).apps@[i].name@)),
        r == -1 ==> final(k).same_as(old(k)),
        r != -1 ==> {
            let c = old(k).current->Some_0 as int;
            let child = final(k).tasks@[r as int];
            &&& r == old(k).tasks@.len()
            &&& final(k).tasks@.len() == old(k).tasks@.len() + 1
            &&& child.parent == Some(c as usize)
            &&& child.status == TaskStatus::Ready
            &&& child.children@.len() == 0
            &&& child.trap_cx == (TrapContext { x10: 0, sp: child.memory_set.heap_bottom, sepc: APP_BASE })
            &&& exists|i: int| {
                &&& 0 <= i < old(k).apps@.len()
                &&& old(k).cur().memory_set.str_at(path as int, #[trigger] old(k).apps@[i].name@)
                &&& child.memory_set.bytes(APP_BASE as int, old(k).apps@[i].image@.len()) == old(k).apps@[i].image@
            }
            &&& final(k).tasks@[c].children@ == old(k).cur().children@.push(r as usize)
            &&& final(k).tasks@[c] == (TaskControlBlock { children: final(k).tasks@[c].children, ..old(k).cur() })
            &&& child.priority == crate::task::DEFAULT_PRIORITY
            &&& child.stride == 0
            &&& child.start_time is None
            &&& !child.reaped
            &&& forall|i: int| 0 <= i < MAX_SYSCALL_NUM ==> child.syscall_times@[i] == 0
            &&& child.memory_set.wf()
            &&& child.memory_set.heap_bottom == child.memory_set.program_brk
            &&& exists|i: int| 0 <= i < old(k).apps@.len() && old(k).cur().memory_set.str_at(path as int, #[trigger] old(k).apps@[i].name@)
                && child.memory_set.spans() == crate::mm::image_spans(old(k).apps@[i].image@.len(), child.memory_set.heap_bottom as int)
                && crate::mm::is_image_space(child.memory_set, old(k).apps@[i].image@)
            &&& final(k).manager.ready_queue@ == old(k).manager.ready_queue@.push(r as usize)
            &&& forall|i: int| 0 <= i < old(k).tasks@.len() && i != c ==> #[trigger] final(k).tasks@[i] == old(k).tasks@[i]
        },
{
    let c = k.current.unwrap();
    let pid = k.tasks.len();
    if pid >= MAX_TASKS {
        return -1;
    }
    let idx = match app_at_path(k, path) {
        None => {
            return -1;
        },
        Some(i) => i,
    };
    assert(k.apps@[idx as int].image@.len() <= crate::config::MAX_APP_SIZE);
    let child = match TaskControlBlock::from_image(pid, Some(c), &k.apps[idx].image) {
        Some(t) => t,
        None => {
            return -1;
        },
    };
    k.tasks.push(child);
    k.tasks[c].children.push(pid);
    k.manager.add(pid);
    proof {
        k.lemma_push_task_wf(*old(k), pid, Some(c));
        assert(old(k).cur().memory_set.str_at(path as int, old(k).apps@[idx as int].name@));
    }
    pid as isize
}

/// Child `cpid` is one that `waitpid(pid, _)` asks for: any child for -1,
/// else the child with that process id.
pub open spec fn pid_matches(pid: isize, cpid: usize) -> bool {
    pid == -1 || pid == cpid as int
}

/// Some child of task `c` matches `pid`.
fn any_child_matches(k: &Kernel, c: usize, pid: isize) -> (r: bool)
    requires
        c < k.tasks@.len(),
    ensures
        r == exists|j: int| 0 <= j < k.tasks@[c as int].children@.len() && pid_matches(pid, #[trigger] k.tasks@[c as int].children@[j]),
{
    let mut i: usize = 0;
    while i < k.tasks[c].children.len()
        invariant
            c < k.tasks@.len(),
            i <= k.tasks@[c as int].children@.len(),
            forall|j: int| 0 <= j < i ==> !pid_matches(pid, #[trigger] k.tasks@[c as int].children@[j]),
        decreases k.tasks@[c as int].children@.len() - i,
    {
        let cp = k.tasks[c].children[i];
        if pid == -1 || (pid >= 0 && pid as usize == cp) {
            return true;
        }
        i = i + 1;
    }
    false
}

/// The first child of task `c` that matches `pid` and is a zombie: its
/// position in the list of children.
fn find_zombie_child(k: &Kernel, c: usize, pid: isize) -> (r: Option<usize>)
    requires
        k.wf(),
        c < k.tasks@.len(),
    ensures
        r matches Some(j) ==> zombie_child_at(k, c as int, pid, j as int),
        r is None ==> forall|j: int| 0 <= j < k.tasks@[c as int].children@.len() ==> !(pid_matches(pid, #[trigger] k.tasks@[c as int].children@[j]) && k.tasks@[k.tasks@[c as int].children@[j] as int].status == TaskStatus::Zombie),
{
    let mut i: usize = 0;
    while i < k.tasks[c].children.len()
        invariant
            k.wf(),
            c < k.tasks@.len(),
            i <= k.tasks@[c as int].children@.len(),
            forall|j: int| 0 <= j < i ==> !(pid_matches(pid, #[trigger] k.tasks@[c as int].children@[j]) && k.tasks@[k.tasks@[c as int].children@[j] as int].status == TaskStatus::Zombie),
        decreases k.tasks@[c as int].children@.len() - i,
    {
        let cp = k.tasks[c].children[i];
        assert(cp < k.tasks@.len());
        if (pid == -1 || (pid >= 0 && pid as usize == cp)) && k.tasks[cp].status == TaskStatus::Zombie {
            return Some(i);
        }
        i = i + 1;
    }
    None
}

/// Position `j` holds the first child of task `c` that matches `pid` and is
/// a zombie.
pub open spec fn zombie_child_at(k: &Kernel, c: int, pid: isize, j: int) -> bool {
    let ch = k.tasks@[c].children@;
    &&& 0 <= j < ch.len()
    &&& pid_matches(pid, ch[j])
    &&& k.tasks@[ch[j] as int].status == TaskStatus::Zombie
    &&& forall|j2: int| 0 <= j2 < j ==> !(pid_matches(pid, #[trigger] ch[j2]) && k.tasks@[ch[j2] as int].status == TaskStatus::Zombie)
}

/// Reaps a child of the running task without waiting. Returns -1 when no
/// child matches `pid` (-1 matches any child), -2 when some match but none
/// has exited, -3 when a matching zombie exists but `exit_code_ptr` is not a
/// writable `i32` of the caller (nothing is reaped then), and otherwise the
/// process id of the first matching zombie, which leaves the list of
/// children and whose exit code is written at `exit_code_ptr`.
pub fn sys_waitpid(k: &mut Kernel, pid: isize, exit_code_ptr: usize) -> (r: isize)
    requires
        old(k).wf(),
        old(k).current is Some,
    ensures
        final(k).wf(),
        final(k).current == old(k).current,
        final(k).manager == old(k).manager,
        ({
            let c = old(k).current->Some_0 as int;
            let ch = old(k).cur().children@;
            let ms = old(k).cur().memory_set;
            &&& (forall|j: int| 0 <= j < ch.len() ==> !pid_matches(pid, #[trigger] ch[j])) <==> r == -1
            &&& r == -2 <==> (exists|j: int| 0 <= j < ch.len() && pid_matches(pid, #[trigger] ch[j]))
                && (forall|j: int| 0 <= j < ch.len() && pid_matches(pid, #[trigger] ch[j]) ==> old(k).tasks@[ch[j] as int].status != TaskStatus::Zombie)
            &&& r == -3 <==> (exists|j: int| #[trigger] zombie_child_at(old(k), c, pid, j))
                && !ms.range_ok(exit_code_ptr as int, 4, true)
            &&& r < 0 ==> (r == -1 || r == -2 || r == -3) && final(k).same_as(old(k))
            &&& r >= 0 ==> exists|j: int| {
                let z = ch[j] as int;
                let nm = final(k).tasks@[c].memory_set;
                &&& #[trigger] zombie_child_at(old(k), c, pid, j)
                &&& r == ch[j]
                &&& ms.range_ok(exit_code_ptr as int, 4, true)
                &&& final(k).tasks@.len() == old(k).tasks@.len()
                &&& final(k).tasks@[c].children@ == ch.remove(j)
                &&& final(k).tasks@[c] == (TaskControlBlock {
                    children: final(k).tasks@[c].children,
                    memory_set: nm,
                    ..old(k).cur()
                })
                &&& final(k).tasks@[z] == (TaskControlBlock { reaped: true, ..old(k).tasks@[z] })
                &&& forall|i: int| 0 <= i < old(k).tasks@.len() && i != c && i != z ==> #[trigger] final(k).tasks@[i] == old(k).tasks@[i]
                &&& nm.same_layout(&ms)
                &&& nm.bytes(exit_code_ptr as int, 4) == le_bytes(
                    old(k).tasks@[z].exit_code as u32 as nat,
                    4,
                )
                &&& forall|a: int| ms.mapped(vpn_of(a)) && !(exit_code_ptr <= a < exit_code_ptr + 4)
                    ==> #[trigger] nm.byte_at(a) == ms.byte_at(a)
            }
        }),
{
    let c = k.current.unwrap();
    if !any_child_matches(k, c, pid) {
        return -1;
    }
    let j = match find_zombie_child(k, c, pid) {
        None => {
            return -2;
        },
        Some(j) => j,
    };
    assert(k.tasks@[c as int].wf());
    if !k.tasks[c].memory_set.check_range(exit_code_ptr, 4, true) {
        assert(zombie_child_at(old(k), c as int, pid, j as int));
        return -3;
    }
    let cp = k.tasks[c].children.remove(j);
    assert(cp < k.tasks@.len());
    assert(cp != c);
    let code = k.tasks[cp].exit_code;
    k.tasks[cp].reaped = true;
    let mut bytes: Vec<u8> = Vec::new();
    push_le(&mut bytes, code as u32 as u64, 4);
    proof {
        lemma_le_bytes_len(code as u32 as nat, 4);
        let tasks = k.tasks@;
        assert forall|i: int| 0 <= i < tasks.len() implies (#[trigger] tasks[i]).wf() && tasks[i].pid == i by {
            assert(old(k).tasks@[i].wf());
        }
        assert forall|i: int, jj: int|
            0 <= i < tasks.len() && 0 <= jj < tasks[i].children@.len() implies {
            &&& #[trigger] tasks[i].children@[jj] < tasks.len()
            &&& tasks[tasks[i].children@[jj] as int].parent == Some(i as usize)
        } by {
            if i == c {
                let oj = if jj < j { jj } else { jj + 1 };
                assert(tasks[i].children@[jj] == old(k).tasks@[i].children@[oj]);
                assert(old(k).tasks@[i].children@[oj] < old(k).tasks@.len());
            } else {
                assert(old(k).tasks@[i].children@[jj] < old(k).tasks@.len());
            }
        }
        assert forall|i: int| 0 <= i < tasks.len() && (#[trigger] tasks[i]).status == TaskStatus::Running implies k.current == Some(i as usize) by {
            assert(old(k).tasks@[i].status == TaskStatus::Running);
        }
        let q = k.manager.ready_queue@;
        assert forall|jj: int| 0 <= jj < q.len() implies #[trigger] q[jj] < tasks.len()
            && tasks[q[jj] as int].status == TaskStatus::Ready by {
            assert(old(k).tasks@[q[jj] as int].status == TaskStatus::Ready);
        }
        assert(k.cur().memory_set == old(k).cur().memory_set);
    }
    let ghost before_write = *k;
    let ok = k.write_current(exit_code_ptr, &bytes);
    proof {
        assert(ok);
        assert(zombie_child_at(old(k), c as int, pid, j as int));
        assert(k.tasks@[cp as int] == before_write.tasks@[cp as int]);
        assert forall|i: int| 0 <= i < old(k).tasks@.len() && i != c && i != cp implies #[trigger] k.tasks@[i] == old(k).tasks@[i] by {
            assert(k.tasks@[i] == before_write.tasks@[i]);
        }
    }
    cp as isize
}

pub const SYSCALL_EXIT: usize = 93;
pub const SYSCALL_YIELD: usize = 124;
pub const SYSCALL_SET_PRIORITY: usize = 140;
pub const SYSCALL_GET_TIME: usize = 169;
pub const SYSCALL_GETPID: usize = 172;
pub const SYSCALL_SBRK: usize = 214;
pub const SYSCALL_MUNMAP: usize = 215;
pub const SYSCALL_FORK: usize = 220;
pub const SYSCALL_EXEC: usize = 221;
pub const SYSCALL_MMAP: usize = 222;
pub const SYSCALL_WAITPID: usize = 260;
pub const SYSCALL_SPAWN: usize = 400;
pub const SYSCALL_TASK_INFO: usize = 410;

/// The counters of `t` after one more call of `id`; a counter stays at its
/// largest value once reached.
pub open spec fn counted(t: TaskControlBlock, id: usize) -> Seq<u32> {
    if id < MAX_SYSCALL_NUM {
        t.syscall_times@.update(
            id as int,
            if t.syscall_times@[id as int] < u32::MAX {
                (t.syscall_times@[id as int] + 1) as u32
            } else {
                u32::MAX
            },
        )
    } else {
        t.syscall_times@
    }
}

/// `id` is one of the system calls handled here.
pub open spec fn known_syscall(id: usize) -> bool {
    id == SYSCALL_EXIT || id == SYSCALL_YIELD || id == SYSCALL_SET_PRIORITY || id == SYSCALL_GET_TIME
        || id == SYSCALL_GETPID || id == SYSCALL_SBRK || id == SYSCALL_MUNMAP || id == SYSCALL_FORK
        || id == SYSCALL_EXEC || id == SYSCALL_MMAP || id == SYSCALL_WAITPID || id == SYSCALL_SPAWN
        || id == SYSCALL_TASK_INFO
}

/// Handles system call `id` with its three arguments for the running task.
/// The call is first counted for that task (`Kernel::count_syscall`), so a
/// `task_info` report includes itself; then the matching `sys_*` function
/// runs, and its result is returned. Signed arguments are the low bits of
/// the register that carries them. An unknown `id` returns -1 and changes
/// nothing but the count. `exit` returns 0 to the kernel, as its caller
/// never resumes.
pub fn syscall(k: &mut Kernel, id: usize, args: [usize; 3], now_ms: usize, now_us: usize) -> (r: isize)
    requires
        old(k).wf(),
        old(k).current is Some,
    ensures
        final(k).wf(),
        ({
            let c = old(k).current->Some_0 as int;
            let t = old(k).cur();
            let ms = t.memory_set;
            &&& final(k).tasks@.len() >= old(k).tasks@.len()
            &&& final(k).tasks@[c].syscall_times@ == counted(t, id)
            &&& !known_syscall(id) ==> r == -1 && final(k).current == old(k).current && final(k).tasks@
                == old(k).tasks@.update(c, TaskControlBlock { syscall_times: final(k).tasks@[c].syscall_times, ..t })
            &&& id == SYSCALL_GETPID ==> r == c
            &&& id == SYSCALL_YIELD ==> r == 0 && final(k).current is Some
            &&& id == SYSCALL_EXIT ==> r == 0 && final(k).tasks@[c].status == TaskStatus::Zombie
                && final(k).tasks@[c].exit_code == args[0] as i32
            &&& id == SYSCALL_SET_PRIORITY ==> (r == -1 <==> (args[0] as isize) < 2) && (r != -1 ==> r
                == args[0] as isize && final(k).tasks@[c].priority == r as u64)
            &&& id == SYSCALL_SBRK ==> (r == -1 <==> !ms.brk_change_ok(args[0] as i32 as int)) && (r
                != -1 ==> r == ms.program_brk && final(k).tasks@[c].memory_set.program_brk
                == ms.program_brk + (args[0] as i32))
            &&& id == SYSCALL_MMAP ==> (r == 0 <==> valid_port(args[2]) && can_insert(
                ms.spans(),
                args[0] as int,
                round_up(args[0] + args[1]),
            ))
            &&& id == SYSCALL_MUNMAP ==> (r == 0 <==> can_remove(
                ms.spans(),
                args[0] as int,
                round_up(args[0] + args[1]),
            ))
            &&& id == SYSCALL_GET_TIME ==> (r == 0 <==> ms.range_ok(args[0] as int, 16, true)) && (r
                == 0 ==> final(k).tasks@[c].memory_set.bytes(args[0] as int, 16) == (TimeVal {
                sec: now_us / 1_000_000,
                usec: now_us % 1_000_000,
            }).wire())
            &&& id == SYSCALL_TASK_INFO ==> (r == 0 <==> ms.range_ok(args[0] as int, 2016, true)) && (r
                == 0 ==> final(k).tasks@[c].memory_set.bytes(args[0] as int, 2016) == info_wire(
                t.status,
                counted(t, id),
                elapsed_ms(t, now_ms),
            ))
            &&& id == SYSCALL_FORK ==> (r == -1 <==> old(k).tasks@.len() >= MAX_TASKS) && (r != -1 ==> r
                == old(k).tasks@.len() && final(k).tasks@[r as int].trap_cx.x10 == 0)
            &&& id == SYSCALL_EXEC ==> (r == -1 <==> forall|i: int| 0 <= i < old(k).apps@.len() ==> !ms.str_at(args[0] as int, #[trigger] old(k).apps@[i].name@))
            &&& id == SYSCALL_SPAWN ==> (r == -1 <==> (old(k).tasks@.len() >= MAX_TASKS || forall|i: int| 0 <= i < old(k).apps@.len() ==> !ms.str_at(args[0] as int, #[trigger] old(k).apps@[i].name@)))
            &&& id == SYSCALL_WAITPID ==> ((forall|j: int| 0 <= j < t.children@.len() ==> !pid_matches(args[0] as isize, #[trigger] t.children@[j])) <==> r == -1)
                && (r == -2 <==> (exists|j: int| 0 <= j < t.children@.len() && pid_matches(args[0] as isize, #[trigger] t.children@[j]))
                    && (forall|j: int| 0 <= j < t.children@.len() && pid_matches(args[0] as isize, #[trigger] t.children@[j]) ==> old(k).tasks@[t.children@[j] as int].status != TaskStatus::Zombie))
        }),
{
    k.count_syscall(id);
    let r = if id == SYSCALL_EXIT {
        sys_exit(k, #[verifier::truncate] (args[0] as i32), now_ms);
        0
    } else if id == SYSCALL_YIELD {
        sys_yield(k, now_ms)
    } else if id == SYSCALL_SET_PRIORITY {
        sys_set_priority(k, #[verifier::truncate] (args[0] as isize))
    } else if id == SYSCALL_GET_TIME {
        sys_get_time(k, args[0], args[1], now_us)
    } else if id == SYSCALL_GETPID {
        sys_getpid(k)
    } else if id == SYSCALL_SBRK {
        sys_sbrk(k, #[verifier::truncate] (args[0] as i32))
    } else if id == SYSCALL_MUNMAP {
        sys_munmap(k, args[0], args[1])
    } else if id == SYSCALL_FORK {
        sys_fork(k)
    } else if id == SYSCALL_EXEC {
        sys_exec(k, args[0])
    } else if id == SYSCALL_MMAP {
        sys_mmap(k, args[0], args[1], args[2])
    } else if id == SYSCALL_WAITPID {
        sys_waitpid(k, #[verifier::truncate] (args[0] as isize), args[1])
    } else if id == SYSCALL_SPAWN {
        sys_spawn(k, args[0])
    } else if id == SYSCALL_TASK_INFO {
        sys_task_info(k, args[0], now_ms)
    } else {
        -1
    };
    r
}

/// After a successful `mmap`, every byte of the mapped range can be read
/// when the port asked for reading and written when it asked for writing; a
/// port with a bit above the low three is never valid.
pub proof fn lemma_mmap_range_accessible(ms: MemorySet, start: usize, len: usize, port: usize)
    requires
        ms.wf(),
        ms.areas@.len() >= 1,
        ms.spans().last() == (vpn_of(start as int), vpn_of(round_up(start + len))),
        ms.areas@.last().perm == (MapPermission {
            r: port & 1 != 0,
            w: port & 2 != 0,
            x: port & 4 != 0,
            u: true,
        }),
        crate::mm::page_aligned(start as int),
    ensures
        port & 1 != 0 ==> ms.range_ok(start as int, len as int, false),
        port & 2 != 0 ==> ms.range_ok(start as int, len as int, true),
        port & 8 != 0 ==> !valid_port(port),
{
    let i = ms.areas@.len() - 1;
    assert(ms.spans()[i] == ms.areas@[i].span());
    assert forall|kk: int| 0 <= kk < len implies ms.areas@[i].contains(#[trigger] vpn_of(start + kk)) by {
        assert(round_up(start + len) >= start + len);
    }
    if port & 1 != 0 {
        assert forall|kk: int| 0 <= kk < len implies #[trigger] ms.page_ok(vpn_of(start + kk), false) by {
            assert(ms.areas@[i].contains(vpn_of(start + kk)));
            ms.lemma_area_index(i, vpn_of(start + kk));
        }
    }
    if port & 2 != 0 {
        assert forall|kk: int| 0 <= kk < len implies #[trigger] ms.page_ok(vpn_of(start + kk), true) by {
            assert(ms.areas@[i].contains(vpn_of(start + kk)));
            ms.lemma_area_index(i, vpn_of(start + kk));
        }
    }
    assert(port & 8 != 0 ==> port & !7usize != 0) by (bit_vector);
}

/// A store into the running task's memory leaves every other task as it
/// was: after `sys_fork`, a store by the child never changes the parent's
/// bytes, nor a store by the parent the child's, as each has its own copy.
pub proof fn lemma_store_is_private(before: Kernel, after: Kernel, m: MemorySet, other: int)
    requires
        before.wf(),
        after.cur_memory_now(&before, m),
        0 <= other < before.tasks@.len(),
        before.current != Some(other as usize),
    ensures
        after.tasks@[other] == before.tasks@[other],
        forall|a: int| #[trigger] after.tasks@[other].memory_set.byte_at(a) == before.tasks@[other].memory_set.byte_at(a),
{
    let c = before.current->Some_0;
    assert(c as int != other);
    assert(after.tasks@ == before.tasks@.update(c as int, TaskControlBlock { memory_set: m, ..before.cur() }));
}

pub proof fn lemma_le_bytes_len(x: nat, n: nat)
    ensures
        le_bytes(x, n).len() == n,
    decreases n,
{
    if n > 0 {
        lemma_le_bytes_len(x / 256, (n - 1) as nat);
    }
}

pub proof fn lemma_counts_bytes_len(s: Seq<u32>)
    ensures
        counts_bytes(s).len() == 4 * s.len(),
    decreases s.len(),
{
    if s.len() > 0 {
        lemma_counts_bytes_len(s.drop_last());
        lemma_le_bytes_len(s.last() as nat, 4);
    }
}

/// A task's report takes 2016 bytes of user memory.
pub proof fn lemma_info_wire_len(status: TaskStatus, times: Seq<u32>, time: usize)
    requires
        times.len() == MAX_SYSCALL_NUM,
    ensures
        info_wire(status, times, time).len() == 2016,
{
    lemma_counts_bytes_len(times);
    lemma_le_bytes_len(time as nat, 8);
}

} // verus!
