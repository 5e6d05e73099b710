use oskernel::config::{APP_BASE, MAX_SYSCALL_NUM};
use oskernel::process::{
    info_bytes, sys_exec, sys_exit, sys_fork, sys_get_time, sys_getpid, sys_mmap, sys_munmap,
    sys_sbrk, sys_set_priority, sys_spawn, sys_task_info, sys_waitpid, sys_yield, syscall,
    TaskInfo, TimeVal, SYSCALL_FORK, SYSCALL_GETPID, SYSCALL_TASK_INFO, SYSCALL_WAITPID,
};
use oskernel::task::{Kernel, TaskStatus};

/// An address on the initial task's stack page.
const STACK_VA: usize = 0x13000;

fn boot() -> Kernel {
    let mut k = Kernel::new();
    assert!(k.add_app(b"init".to_vec(), vec![0x13u8; 100]));
    assert!(k.add_app(b"prog".to_vec(), vec![7u8; 5000]));
    let pid = k.add_initial_task(&b"init".to_vec()).unwrap();
    assert_eq!(k.run_next(1), Some(pid));
    k
}

fn read(k: &Kernel, va: usize, len: usize) -> Vec<u8> {
    let c = k.current.unwrap();
    k.tasks[c].memory_set.translate_to_bytes(va, len).unwrap().concat()
}

#[test]
fn getpid_is_current() {
    let k = boot();
    assert_eq!(sys_getpid(&k), 0);
}

#[test]
fn waitpid_no_child_running_child_exited_child() {
    let mut k = boot();
    assert_eq!(sys_waitpid(&mut k, -1, STACK_VA), -1);
    let child = sys_fork(&mut k);
    assert_eq!(child, 1);
    assert_eq!(sys_waitpid(&mut k, -1, STACK_VA), -2);
    assert_eq!(sys_waitpid(&mut k, 5, STACK_VA), -1);
    // the child runs next: equal strides, and it was queued first
    sys_yield(&mut k, 2);
    assert_eq!(k.current, Some(1));
    sys_exit(&mut k, 7, 3);
    assert_eq!(k.current, Some(0));
    assert_eq!(k.tasks[1].status, TaskStatus::Zombie);
    assert_eq!(sys_waitpid(&mut k, -1, STACK_VA), 1);
    assert_eq!(read(&k, STACK_VA, 4), vec![7, 0, 0, 0]);
    assert!(k.tasks[1].reaped);
    assert!(k.tasks[0].children.is_empty());
    assert_eq!(sys_waitpid(&mut k, -1, STACK_VA), -1);
}

#[test]
fn waitpid_negative_exit_code_bytes() {
    let mut k = boot();
    sys_fork(&mut k);
    sys_yield(&mut k, 2);
    sys_exit(&mut k, -2, 3);
    assert_eq!(sys_waitpid(&mut k, 1, STACK_VA), 1);
    assert_eq!(read(&k, STACK_VA, 4), vec![0xfe, 0xff, 0xff, 0xff]);
}

#[test]
fn fork_child_returns_zero_and_inherits() {
    let mut k = boot();
    sys_set_priority(&mut k, 9);
    let child = sys_fork(&mut k) as usize;
    let t = &k.tasks[child];
    assert_eq!(t.trap_cx.x10, 0);
    assert_eq!(t.parent, Some(0));
    assert_eq!(t.priority, 9);
    assert_eq!(t.status, TaskStatus::Ready);
    assert_eq!(k.tasks[0].children, vec![child]);
    assert_eq!(k.manager.ready_queue, vec![child]);
}

#[test]
fn fork_then_task_info_in_child() {
    let mut k = boot();
    assert_eq!(syscall(&mut k, SYSCALL_GETPID, [0, 0, 0], 1, 1000), 0);
    let child = syscall(&mut k, SYSCALL_FORK, [0, 0, 0], 1, 1000);
    assert_eq!(child, 1);
    sys_yield(&mut k, 2);
    assert_eq!(k.current, Some(1));
    assert_eq!(syscall(&mut k, SYSCALL_TASK_INFO, [STACK_VA, 0, 0], 12, 12000), 0);
    let bytes = read(&k, STACK_VA, 2016);
    assert_eq!(bytes[0], 2);
    let count = |id: usize| {
        let o = 4 + 4 * id;
        u32::from_le_bytes([bytes[o], bytes[o + 1], bytes[o + 2], bytes[o + 3]])
    };
    assert_eq!(count(SYSCALL_TASK_INFO), 1);
    assert_eq!(count(SYSCALL_FORK), 0);
    assert_eq!(count(SYSCALL_GETPID), 0);
    let total: u32 = (0..MAX_SYSCALL_NUM).map(count).sum();
    assert_eq!(total, 1);
    assert_eq!(&bytes[2008..2016], &10usize.to_le_bytes()[..]);
}

#[test]
fn fork_memory_is_independent() {
    let mut k = boot();
    assert_eq!(sys_mmap(&mut k, 0x100000, 4096, 3), 0);
    k.write_current(0x100000, &vec![1u8]);
    sys_fork(&mut k);
    sys_yield(&mut k, 2);
    assert_eq!(k.current, Some(1));
    assert_eq!(read(&k, 0x100000, 1), vec![1]);
    assert!(k.write_current(0x100000, &vec![9u8]));
    assert_eq!(read(&k, 0x100000, 1), vec![9]);
    assert_eq!(k.tasks[0].memory_set.translate_to_bytes(0x100000, 1).unwrap().concat(), vec![1]);
}

#[test]
fn mmap_then_read_write_and_bad_port() {
    let mut k = boot();
    assert_eq!(sys_mmap(&mut k, 0x100000, 8192, 0x3), 0);
    assert!(k.write_current(0x100ffc, &vec![1u8, 2, 3, 4, 5, 6, 7, 8]));
    assert_eq!(read(&k, 0x100ffc, 8), vec![1, 2, 3, 4, 5, 6, 7, 8]);
    assert_eq!(sys_mmap(&mut k, 0x200000, 4096, 0x8), -1);
    assert_eq!(sys_mmap(&mut k, 0x200000, 4096, 0x0), -1);
    assert_eq!(sys_mmap(&mut k, 0x200001, 4096, 0x1), -1);
    assert_eq!(sys_mmap(&mut k, 0x101000, 4096, 0x1), -1);
}

#[test]
fn mmap_rounds_length_up() {
    let mut k = boot();
    assert_eq!(sys_mmap(&mut k, 0x100000, 10, 0x1), 0);
    let c = k.current.unwrap();
    let area = k.tasks[c].memory_set.areas.last().unwrap();
    assert_eq!((area.start_vpn, area.end_vpn), (0x100, 0x101));
    assert!(area.perm.r && !area.perm.w && !area.perm.x && area.perm.u);
    assert!(!k.write_current(0x100000, &vec![1u8]));
}

#[test]
fn munmap_exact_span_only() {
    let mut k = boot();
    assert_eq!(sys_mmap(&mut k, 0x100000, 8192, 0x3), 0);
    assert_eq!(sys_munmap(&mut k, 0x100000, 4096), -1);
    assert_eq!(sys_munmap(&mut k, 0x100001, 8192), -1);
    assert_eq!(sys_munmap(&mut k, 0x100000, 8192), 0);
    assert_eq!(sys_munmap(&mut k, 0x100000, 8192), -1);
}

#[test]
fn sbrk_round_trip_and_origin() {
    let mut k = boot();
    let origin = k.tasks[0].memory_set.program_brk;
    assert_eq!(sys_sbrk(&mut k, 4096), origin as isize);
    assert_eq!(sys_sbrk(&mut k, -4096), (origin + 4096) as isize);
    assert_eq!(k.tasks[0].memory_set.program_brk, origin);
    assert_eq!(sys_sbrk(&mut k, -1), -1);
}

#[test]
fn set_priority_below_two_fails() {
    let mut k = boot();
    assert_eq!(sys_set_priority(&mut k, 1), -1);
    assert_eq!(sys_set_priority(&mut k, -3), -1);
    assert_eq!(sys_set_priority(&mut k, 2), 2);
    assert_eq!(k.tasks[0].priority, 2);
}

#[test]
fn exec_loads_program_and_keeps_pid() {
    let mut k = boot();
    assert!(k.write_current(STACK_VA, &b"prog\0".to_vec()));
    assert_eq!(sys_exec(&mut k, STACK_VA), 0);
    assert_eq!(sys_getpid(&k), 0);
    assert_eq!(read(&k, APP_BASE, 5000), vec![7u8; 5000]);
    assert_eq!(k.tasks[0].trap_cx.sepc, APP_BASE);
    assert_eq!(k.tasks[0].status, TaskStatus::Running);
}

#[test]
fn exec_unknown_path_fails() {
    let mut k = boot();
    assert!(k.write_current(STACK_VA, &b"nope\0".to_vec()));
    assert_eq!(sys_exec(&mut k, STACK_VA), -1);
    assert_eq!(sys_exec(&mut k, 0x300000), -1);
}

#[test]
fn spawn_creates_child_from_image() {
    let mut k = boot();
    assert!(k.write_current(STACK_VA, &b"prog\0".to_vec()));
    let pid = sys_spawn(&mut k, STACK_VA);
    assert_eq!(pid, 1);
    let t = &k.tasks[1];
    assert_eq!(t.parent, Some(0));
    assert_eq!(t.memory_set.translate_to_bytes(APP_BASE, 3).unwrap().concat(), vec![7, 7, 7]);
    assert_eq!(k.tasks[0].children, vec![1]);
    assert!(k.write_current(STACK_VA, &b"nope\0".to_vec()));
    assert_eq!(sys_spawn(&mut k, STACK_VA), -1);
}

#[test]
fn get_time_writes_timeval() {
    let mut k = boot();
    assert_eq!(sys_get_time(&mut k, STACK_VA, 0, 3_500_000), 0);
    let bytes = read(&k, STACK_VA, 16);
    assert_eq!(&bytes[0..8], &3u64.to_le_bytes()[..]);
    assert_eq!(&bytes[8..16], &500_000u64.to_le_bytes()[..]);
    assert_eq!(sys_get_time(&mut k, APP_BASE, 0, 1), -1);
}

#[test]
fn get_time_across_page_boundary() {
    let mut k = boot();
    assert_eq!(sys_mmap(&mut k, 0x100000, 8192, 3), 0);
    assert_eq!(sys_get_time(&mut k, 0x100ff8, 0, 2_000_001), 0);
    let bytes = read(&k, 0x100ff8, 16);
    assert_eq!(&bytes[0..8], &2u64.to_le_bytes()[..]);
    assert_eq!(&bytes[8..16], &1u64.to_le_bytes()[..]);
}

#[test]
fn task_info_reports_time_and_status() {
    let mut k = boot();
    assert_eq!(sys_task_info(&mut k, STACK_VA, 101), 0);
    let bytes = read(&k, STACK_VA, 2016);
    assert_eq!(bytes[0], 2);
    assert_eq!(&bytes[2008..2016], &100usize.to_le_bytes()[..]);
    assert_eq!(sys_task_info(&mut k, 0x300000, 101), -1);
}

#[test]
fn task_info_encoding() {
    let mut info = TaskInfo::new();
    assert_eq!(info.status, TaskStatus::Ready);
    info.syscall_times[1] = 0x01020304;
    info.time = 0x0506;
    let b = info.to_bytes();
    assert_eq!(b.len(), 2016);
    assert_eq!(&b[0..4], &[1, 0, 0, 0]);
    assert_eq!(&b[8..12], &[4, 3, 2, 1]);
    assert_eq!(&b[2008..2010], &[6, 5]);
    assert_eq!(info_bytes(TaskStatus::Zombie, &vec![0u32; 2], 0)[0], 3);
}

#[test]
fn timeval_encoding() {
    let t = TimeVal { sec: 0x0102, usec: 7 };
    let b = t.to_bytes();
    assert_eq!(b.len(), 16);
    assert_eq!(&b[0..3], &[2, 1, 0]);
    assert_eq!(b[8], 7);
}

#[test]
fn unknown_syscall_returns_minus_one() {
    let mut k = boot();
    assert_eq!(syscall(&mut k, 9999, [0, 0, 0], 1, 1), -1);
    assert_eq!(syscall(&mut k, 3, [0, 0, 0], 1, 1), -1);
    assert_eq!(k.tasks[0].syscall_times[3], 1);
}

#[test]
fn exit_with_empty_queue_leaves_core_idle() {
    let mut k = boot();
    sys_exit(&mut k, 0, 5);
    assert_eq!(k.current, None);
    assert_eq!(k.tasks[0].status, TaskStatus::Zombie);
    assert!(k.tasks[0].memory_set.translate_to_bytes(APP_BASE, 1).is_none());
}

#[test]
fn oversized_app_is_refused() {
    let mut k = Kernel::new();
    assert!(!k.add_app(b"big".to_vec(), vec![0u8; 0x100_0001]));
    assert!(k.apps.is_empty());
    assert_eq!(k.add_initial_task(&b"big".to_vec()), None);
}

#[test]
fn waitpid_outcomes_with_unwritable_pointer() {
    let mut k = boot();
    assert_eq!(sys_waitpid(&mut k, -1, 0), -1);
    sys_fork(&mut k);
    assert_eq!(sys_waitpid(&mut k, -1, 0), -2);
    sys_yield(&mut k, 2);
    sys_exit(&mut k, 4, 3);
    assert_eq!(sys_waitpid(&mut k, -1, APP_BASE), -3);
    assert!(!k.tasks[1].reaped);
    assert_eq!(k.tasks[0].children, vec![1]);
    assert_eq!(sys_waitpid(&mut k, -1, STACK_VA), 1);
    assert_eq!(read(&k, STACK_VA, 4), vec![4, 0, 0, 0]);
}

#[test]
fn dispatcher_waitpid_running_child_is_minus_two() {
    let mut k = boot();
    sys_fork(&mut k);
    assert_eq!(syscall(&mut k, SYSCALL_WAITPID, [usize::MAX, 0, 0], 1, 1), -2);
}

#[test]
fn sbrk_zero_keeps_break_and_areas() {
    let mut k = boot();
    let brk = k.tasks[0].memory_set.program_brk;
    let n = k.tasks[0].memory_set.areas.len();
    assert_eq!(sys_sbrk(&mut k, 0), brk as isize);
    assert_eq!(k.tasks[0].memory_set.program_brk, brk);
    assert_eq!(k.tasks[0].memory_set.areas.len(), n);
}

#[test]
fn munmap_of_heap_span_empties_heap() {
    let mut k = boot();
    let origin = k.tasks[0].memory_set.program_brk;
    assert_eq!(sys_sbrk(&mut k, 4096), origin as isize);
    assert_eq!(sys_munmap(&mut k, origin, 4096), 0);
    assert_eq!(k.tasks[0].memory_set.program_brk, origin);
    assert!(!k.write_current(origin, &vec![1u8]));
    assert_eq!(sys_munmap(&mut k, origin, 0), 0);
    assert_eq!(sys_sbrk(&mut k, 10), origin as isize);
}

#[test]
fn duplicate_program_name_is_refused() {
    let mut k = boot();
    assert!(!k.add_app(b"prog".to_vec(), vec![1u8]));
    assert_eq!(k.apps.len(), 2);
}

#[test]
fn spawn_and_exec_build_the_same_memory() {
    let mut k = boot();
    assert!(k.write_current(STACK_VA, &b"prog\0".to_vec()));
    let child = sys_spawn(&mut k, STACK_VA) as usize;
    assert_eq!(sys_exec(&mut k, STACK_VA), 0);
    let a = &k.tasks[child].memory_set;
    let b = &k.tasks[0].memory_set;
    assert_eq!(a.program_brk, b.program_brk);
    assert_eq!(a.areas.len(), b.areas.len());
    for (x, y) in a.areas.iter().zip(b.areas.iter()) {
        assert_eq!((x.start_vpn, x.end_vpn, x.perm), (y.start_vpn, y.end_vpn, y.perm));
        assert_eq!(x.data, y.data);
    }
}

#[test]
fn dispatcher_counts_each_call() {
    let mut k = boot();
    assert_eq!(syscall(&mut k, SYSCALL_GETPID, [0, 0, 0], 1, 1), 0);
    assert_eq!(syscall(&mut k, SYSCALL_GETPID, [0, 0, 0], 1, 1), 0);
    assert_eq!(k.tasks[0].syscall_times[SYSCALL_GETPID], 2);
}
