use stride_kernel::config::{BIG_STRIDE, MAX_STRIDE};
use stride_kernel::kernel::Kernel;
use stride_kernel::manager::{add_task, fetch_task, TaskManager};
use stride_kernel::syscall::{sys_fork, sys_getpid, sys_set_priority, sys_yield};
use stride_kernel::task::TaskControlBlock;

fn task(pid: usize, stride: u64, is_overflow: bool, priority: usize) -> TaskControlBlock {
    let mut t = TaskControlBlock::new(pid, &vec![], None, 0);
    t.stride = stride;
    t.is_overflow = is_overflow;
    t.priority = priority;
    t
}

fn pids(m: &TaskManager) -> Vec<usize> {
    m.ready_queue.iter().map(|t| t.pid).collect()
}

#[test]
fn fetch_from_an_empty_queue_gives_nothing() {
    let mut m = TaskManager::new();
    assert!(m.fetch().is_none());
    assert!(m.ready_queue.is_empty());
    assert!(fetch_task(&mut m).is_none());
}

#[test]
fn fetch_takes_the_least_stride() {
    let mut m = TaskManager::new();
    m.add(task(1, 30, false, 16));
    m.add(task(2, 10, false, 16));
    m.add(task(3, 20, false, 16));
    let t = m.fetch().unwrap();
    assert_eq!(t.pid, 2);
    assert_eq!(t.stride, 10 + BIG_STRIDE / 16);
    assert!(!t.is_overflow);
    assert_eq!(pids(&m), vec![1, 3]);
    assert_eq!(m.ready_queue[0].stride, 30);
    assert_eq!(m.ready_queue[1].stride, 20);
}

#[test]
fn arrival_order_decides_only_among_equals() {
    let mut m = TaskManager::new();
    add_task(&mut m, task(7, 5, false, 2));
    add_task(&mut m, task(8, 5, false, 2));
    add_task(&mut m, task(9, 4, false, 2));
    assert_eq!(fetch_task(&mut m).unwrap().pid, 9);
    assert_eq!(fetch_task(&mut m).unwrap().pid, 7);
    assert_eq!(fetch_task(&mut m).unwrap().pid, 8);
    assert!(fetch_task(&mut m).is_none());
}

#[test]
fn a_task_that_has_overflowed_waits_for_the_others() {
    let mut m = TaskManager::new();
    m.add(task(1, 0, true, 16));
    m.add(task(2, MAX_STRIDE - 1, false, 16));
    let t = m.fetch().unwrap();
    assert_eq!(t.pid, 2);
    // the counter wraps and the task is marked
    assert!(t.is_overflow);
    assert_eq!(t.stride, BIG_STRIDE / 16 - 1);
    assert_eq!(pids(&m), vec![1]);
    assert!(m.ready_queue[0].is_overflow);
}

#[test]
fn the_counter_wraps_exactly_at_the_bound() {
    let mut m = TaskManager::new();
    let pass = BIG_STRIDE / 4;
    m.add(task(1, MAX_STRIDE - pass, false, 4));
    let t = m.fetch().unwrap();
    assert!(t.is_overflow);
    assert_eq!(t.stride, 0);
    m.add(task(2, MAX_STRIDE - pass - 1, false, 4));
    let t = m.fetch().unwrap();
    assert!(!t.is_overflow);
    assert_eq!(t.stride, MAX_STRIDE - 1);
}

#[test]
fn a_new_epoch_begins_when_all_have_overflowed() {
    let mut m = TaskManager::new();
    m.add(task(1, 50, true, 16));
    m.add(task(2, 40, true, 16));
    m.add(task(3, 60, true, 16));
    let t = m.fetch().unwrap();
    assert_eq!(t.pid, 2);
    assert!(!t.is_overflow);
    assert_eq!(t.stride, 40 + BIG_STRIDE / 16);
    assert_eq!(pids(&m), vec![1, 3]);
    assert!(!m.ready_queue[0].is_overflow);
    assert!(!m.ready_queue[1].is_overflow);
    assert_eq!(m.ready_queue[0].stride, 50);
    assert_eq!(m.ready_queue[1].stride, 60);
}

#[test]
fn a_higher_priority_runs_more_often() {
    let mut m = TaskManager::new();
    m.add(task(1, 0, false, 2));
    m.add(task(2, 0, false, 8));
    let mut runs = [0usize; 3];
    for _ in 0..500 {
        let t = m.fetch().unwrap();
        runs[t.pid] += 1;
        m.add(t);
    }
    assert_eq!(runs[1] + runs[2], 500);
    assert_eq!(runs[1], 100);
    assert_eq!(runs[2], 400);
}

#[test]
fn a_large_priority_has_pass_zero() {
    let mut m = TaskManager::new();
    m.add(task(1, 17, false, (BIG_STRIDE + 1) as usize));
    let t = m.fetch().unwrap();
    assert_eq!(t.stride, 17);
}

fn dispatch_counts(n: usize, priority: isize, window: usize) -> Vec<usize> {
    let mut k = Kernel::new(&vec![]);
    assert_eq!(sys_set_priority(&mut k, priority), priority);
    for _ in 1..n {
        sys_fork(&mut k);
    }
    // bring every task to the same priority and level the start
    for _ in 0..n {
        sys_yield(&mut k);
        sys_set_priority(&mut k, priority);
    }
    let mut queue: Vec<u64> = k.manager.ready_queue.iter().map(|t| t.stride).collect();
    queue.push(k.current.as_ref().unwrap().stride);
    let pass = BIG_STRIDE / priority as u64;
    assert!(queue.iter().max().unwrap() - queue.iter().min().unwrap() <= pass);
    let mut counts = vec![0usize; n];
    for _ in 0..window {
        sys_yield(&mut k);
        counts[sys_getpid(&k) as usize] += 1;
    }
    counts
}

#[test]
fn equal_priorities_share_the_processor_equally() {
    for &(n, window) in &[(1usize, 10usize), (3, 1000), (4, 1003), (7, 20)] {
        let counts = dispatch_counts(n, 16, window);
        assert_eq!(counts.iter().sum::<usize>(), window);
        let most = *counts.iter().max().unwrap();
        let least = *counts.iter().min().unwrap();
        assert!(most - least <= 2);
        for c in counts {
            assert!(c + 2 > window / n && c < window / n + 3);
        }
    }
}

#[test]
fn equal_priorities_stay_equal_across_epochs() {
    // with priority 2 a task overflows after 8192 dispatches: 100000 dispatches of
    // three tasks take each of them through four epochs
    let window = 100_000;
    let counts = dispatch_counts(3, 2, window);
    assert_eq!(counts.iter().sum::<usize>(), window);
    for c in counts {
        assert!(c >= 33_332 && c <= 33_335);
    }
}

#[test]
fn tasks_with_pass_zero_take_turns() {
    let counts = dispatch_counts(3, (BIG_STRIDE * 2) as isize, 100);
    for c in counts {
        assert!(c == 33 || c == 34);
    }
}

#[test]
fn set_priority_takes_effect_at_the_next_dispatch() {
    let mut k = Kernel::new(&vec![]);
    let first = k.current.as_ref().unwrap().stride;
    assert_eq!(first, BIG_STRIDE / 16);
    assert_eq!(sys_set_priority(&mut k, 1024), 1024);
    assert_eq!(k.current.as_ref().unwrap().stride, first);
    sys_yield(&mut k);
    assert_eq!(k.current.as_ref().unwrap().stride, first + BIG_STRIDE / 1024);
    assert_eq!(sys_set_priority(&mut k, isize::MAX), isize::MAX);
    sys_yield(&mut k);
    assert_eq!(k.current.as_ref().unwrap().stride, first + BIG_STRIDE / 1024);
}
