use oskernel::manager::{SchedPolicy, TaskManager};
use oskernel::process::sys_set_priority;
use oskernel::task::{Kernel, TaskStatus};

#[test]
fn stride_fetch_picks_least_then_earliest() {
    let mut m = TaskManager::new();
    m.add(0);
    m.add(1);
    m.add(2);
    let strides = vec![5u64, 3, 3];
    assert_eq!(m.fetch(&strides), Some(1));
    assert_eq!(m.ready_queue, vec![0, 2]);
    assert_eq!(m.fetch(&strides), Some(2));
    assert_eq!(m.fetch(&strides), Some(0));
    assert_eq!(m.fetch(&strides), None);
}

#[test]
fn fifo_fetch_takes_front() {
    let mut m = TaskManager::with_policy(SchedPolicy::Fifo);
    m.add(2);
    m.add(0);
    let strides = vec![0u64, 0, 9];
    assert_eq!(m.fetch(&strides), Some(2));
    assert_eq!(m.fetch(&strides), Some(0));
    assert_eq!(m.fetch(&strides), None);
}

#[test]
fn dispatch_ratio_follows_priority() {
    let mut k = Kernel::new();
    assert!(k.add_app(b"a".to_vec(), vec![1u8; 4]));
    let a = k.add_initial_task(&b"a".to_vec()).unwrap();
    let b = k.add_initial_task(&b"a".to_vec()).unwrap();
    // give each task its priority while it runs
    assert_eq!(k.run_next(0), Some(a));
    assert_eq!(sys_set_priority(&mut k, 2), 2);
    k.suspend_current();
    assert_eq!(k.run_next(0), Some(b));
    assert_eq!(sys_set_priority(&mut k, 6), 6);
    k.suspend_current();
    let mut counts = [0usize; 2];
    for t in 0..800 {
        let p = k.run_next(t).unwrap();
        counts[p] += 1;
        assert_eq!(k.tasks[p].status, TaskStatus::Running);
        k.suspend_current();
    }
    // 6 : 2 within one dispatch per hundred
    assert!(counts[b] * 100 >= counts[a] * 3 * 99);
    assert!(counts[b] * 100 <= counts[a] * 3 * 101);
}

#[test]
fn start_time_is_first_dispatch() {
    let mut k = Kernel::new();
    assert!(k.add_app(b"a".to_vec(), vec![1u8; 4]));
    k.add_initial_task(&b"a".to_vec()).unwrap();
    assert_eq!(k.tasks[0].start_time, None);
    k.run_next(40);
    k.suspend_current();
    k.run_next(90);
    assert_eq!(k.tasks[0].start_time, Some(40));
    assert_eq!(k.tasks[0].stride, 2 * (0x10_0000 / 16));
}
