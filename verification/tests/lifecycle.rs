use stride_kernel::config::{BIG_STRIDE, DEFAULT_PRIORITY};
use stride_kernel::kernel::Kernel;
use stride_kernel::syscall::{
    copy_paddr_vaddr, copy_vaddr_paddr, sys_exec, sys_exit, sys_fork, sys_getpid, sys_set_priority, sys_spawn,
    sys_waitpid, sys_yield,
};
use stride_kernel::task::TaskStatus;

fn image() -> Vec<u8> {
    vec![0x13u8; 100]
}

const OUT: usize = 0x1_3000;

fn read_i32(k: &Kernel, ptr: usize) -> i32 {
    let task = k.current.as_ref().unwrap();
    let bytes = copy_vaddr_paddr(&task.memory_set, ptr, 4).unwrap();
    i32::from_le_bytes([bytes[0], bytes[1], bytes[2], bytes[3]])
}

/// Brings up task A under pid 1 with the children 2 and 3, 2 having exited with 7,
/// and A running again.
fn family() -> Kernel {
    let mut k = Kernel::new(&image());
    assert_eq!(sys_getpid(&k), 0);
    assert_eq!(sys_fork(&mut k), 1);
    assert_eq!(sys_yield(&mut k), 0);
    assert_eq!(sys_getpid(&k), 1);
    assert_eq!(sys_fork(&mut k), 2);
    assert_eq!(sys_fork(&mut k), 3);
    assert_eq!(sys_yield(&mut k), 0);
    assert_eq!(sys_getpid(&k), 2);
    sys_exit(&mut k, 7);
    assert_eq!(sys_getpid(&k), 3);
    sys_yield(&mut k);
    assert_eq!(sys_getpid(&k), 0);
    sys_yield(&mut k);
    assert_eq!(sys_getpid(&k), 1);
    k
}

#[test]
fn boot_dispatches_the_first_task() {
    let k = Kernel::new(&image());
    let t = k.current.as_ref().unwrap();
    assert_eq!(t.pid, 0);
    assert_eq!(t.status, TaskStatus::Running);
    assert_eq!(t.priority, DEFAULT_PRIORITY);
    assert_eq!(t.stride, BIG_STRIDE / 16);
    assert!(!t.is_overflow);
    assert_eq!(t.parent, None);
    assert!(t.children.is_empty());
    assert_eq!(t.trap_cx.sepc, 0x1_0000);
    assert_eq!(t.trap_cx.x[2], 0x1_4000);
    assert_eq!(t.heap_bottom, 0x1_4000);
    assert_eq!(t.program_brk, 0x1_4000);
    assert_eq!(k.next_pid, 1);
    assert_eq!(k.reaped, 0);
    assert!(k.manager.ready_queue.is_empty());
    assert!(k.zombies.is_empty());
}

#[test]
fn wait_reaps_the_exited_child_once() {
    let mut k = family();
    assert_eq!(k.zombies.len(), 1);
    assert_eq!(sys_waitpid(&mut k, 2, OUT), 2);
    assert_eq!(read_i32(&k, OUT), 7);
    assert_eq!(k.current.as_ref().unwrap().children, vec![3]);
    assert!(k.zombies.is_empty());
    assert_eq!(k.reaped, 1);
    assert_eq!(sys_waitpid(&mut k, 2, OUT), -1);
    assert_eq!(k.reaped, 1);
}

#[test]
fn wait_for_a_child_that_still_runs_says_not_ready() {
    let mut k = family();
    assert_eq!(sys_waitpid(&mut k, 3, OUT), -2);
    assert_eq!(k.current.as_ref().unwrap().children, vec![2, 3]);
    assert_eq!(k.zombies.len(), 1);
}

#[test]
fn wait_for_any_child_takes_the_zombie() {
    let mut k = family();
    assert_eq!(sys_waitpid(&mut k, -1, OUT), 2);
    assert_eq!(read_i32(&k, OUT), 7);
    assert_eq!(sys_waitpid(&mut k, -1, OUT), -2);
}

#[test]
fn wait_without_children_fails() {
    let mut k = Kernel::new(&image());
    assert_eq!(sys_waitpid(&mut k, -1, OUT), -1);
    assert_eq!(sys_waitpid(&mut k, 5, OUT), -1);
}

#[test]
fn wait_for_a_stranger_fails() {
    let mut k = family();
    assert_eq!(sys_waitpid(&mut k, 0, OUT), -1);
    assert_eq!(sys_waitpid(&mut k, 9, OUT), -1);
    assert_eq!(sys_waitpid(&mut k, -2, OUT), -1);
}

#[test]
fn wait_with_a_bad_pointer_reaps_nothing() {
    let mut k = family();
    // the guard page is not mapped
    assert_eq!(sys_waitpid(&mut k, 2, 0x1_1000), -1);
    assert_eq!(k.zombies.len(), 1);
    assert_eq!(k.current.as_ref().unwrap().children, vec![2, 3]);
    assert_eq!(sys_waitpid(&mut k, 2, usize::MAX - 1), -1);
    assert_eq!(sys_waitpid(&mut k, 2, OUT), 2);
}

#[test]
fn negative_exit_code_reaches_the_parent() {
    let mut k = Kernel::new(&image());
    assert_eq!(sys_fork(&mut k), 1);
    sys_yield(&mut k);
    assert_eq!(sys_getpid(&k), 1);
    sys_exit(&mut k, -3);
    assert_eq!(sys_getpid(&k), 0);
    assert_eq!(sys_waitpid(&mut k, 1, 0x1_2ffe), 1);
    assert_eq!(read_i32(&k, 0x1_2ffe), -3);
}

#[test]
fn live_tasks_are_those_created_and_not_reaped() {
    let mut k = family();
    let live = |k: &Kernel| {
        k.zombies.len() + k.manager.ready_queue.len() + k.current.iter().count()
    };
    assert_eq!(live(&k), 4);
    assert_eq!(live(&k) + k.reaped, k.next_pid);
    sys_waitpid(&mut k, -1, OUT);
    assert_eq!(live(&k), 3);
    assert_eq!(live(&k) + k.reaped, k.next_pid);
    sys_fork(&mut k);
    assert_eq!(live(&k), 4);
    assert_eq!(live(&k) + k.reaped, k.next_pid);
    sys_exit(&mut k, 0);
    assert_eq!(live(&k), 4);
    assert_eq!(live(&k) + k.reaped, k.next_pid);
}

#[test]
fn fork_copies_the_caller() {
    let mut k = Kernel::new(&image());
    let data = vec![1u8, 2, 3, 4];
    {
        let t = k.current.as_mut().unwrap();
        copy_paddr_vaddr(&mut t.memory_set, &data, OUT).unwrap();
        t.trap_cx.x[10] = 99;
        t.trap_cx.sepc = 0x44;
    }
    assert_eq!(sys_fork(&mut k), 1);
    let parent = k.current.as_ref().unwrap();
    let child = &k.manager.ready_queue[0];
    assert_eq!(parent.children, vec![1]);
    assert_eq!(parent.trap_cx.x[10], 99);
    assert_eq!(child.pid, 1);
    assert_eq!(child.parent, Some(0));
    assert_eq!(child.status, TaskStatus::Ready);
    assert_eq!(child.stride, 0);
    assert_eq!(child.trap_cx.x[10], 0);
    assert_eq!(child.trap_cx.x[2], 0x1_4000);
    assert_eq!(child.trap_cx.sepc, 0x44);
    assert_eq!(copy_vaddr_paddr(&child.memory_set, OUT, 4).unwrap(), data);
    // the copy has frames of its own
    let t = k.current.as_mut().unwrap();
    copy_paddr_vaddr(&mut t.memory_set, &vec![9u8], OUT).unwrap();
    let child = &k.manager.ready_queue[0];
    assert_eq!(copy_vaddr_paddr(&child.memory_set, OUT, 1).unwrap(), vec![1u8]);
}

#[test]
fn exec_without_a_file_changes_nothing() {
    let mut k = Kernel::new(&image());
    assert_eq!(sys_exec(&mut k, None), -1);
    let t = k.current.as_ref().unwrap();
    assert_eq!(copy_vaddr_paddr(&t.memory_set, 0x1_0000, 2).unwrap(), vec![0x13u8, 0x13]);
    assert_eq!(t.program_brk, 0x1_4000);
}

#[test]
fn exec_replaces_the_image_of_the_caller() {
    let mut k = Kernel::new(&image());
    sys_fork(&mut k);
    let big = vec![0xabu8; 4097];
    assert_eq!(sys_exec(&mut k, Some(&big)), 0);
    let t = k.current.as_ref().unwrap();
    assert_eq!(t.pid, 0);
    assert_eq!(t.children, vec![1]);
    assert_eq!(t.trap_cx.sepc, 0x1_0000);
    assert_eq!(t.trap_cx.x[2], 0x1_5000);
    assert_eq!(t.heap_bottom, 0x1_5000);
    assert_eq!(copy_vaddr_paddr(&t.memory_set, 0x1_0fff, 3).unwrap(), vec![0xab, 0xab, 0]);
    // guard page between image and stack
    assert!(copy_vaddr_paddr(&t.memory_set, 0x1_2000, 1).is_err());
    assert!(copy_vaddr_paddr(&t.memory_set, 0x1_3000, 0x2000).is_ok());
    assert_eq!(k.next_pid, 2);
}

#[test]
fn spawn_creates_a_child_from_the_image() {
    let mut k = Kernel::new(&image());
    assert_eq!(sys_spawn(&mut k, None), -1);
    assert_eq!(k.next_pid, 1);
    let prog = vec![7u8; 10];
    assert_eq!(sys_spawn(&mut k, Some(&prog)), 1);
    let child = &k.manager.ready_queue[0];
    assert_eq!(child.pid, 1);
    assert_eq!(child.parent, Some(0));
    assert_eq!(child.priority, DEFAULT_PRIORITY);
    assert_eq!(child.stride, 0);
    assert_eq!(copy_vaddr_paddr(&child.memory_set, 0x1_0000, 11).unwrap()[..10], prog[..]);
    assert_eq!(k.current.as_ref().unwrap().children, vec![1]);
    sys_yield(&mut k);
    assert_eq!(sys_getpid(&k), 1);
}

#[test]
fn priority_below_two_is_refused() {
    let mut k = Kernel::new(&image());
    assert_eq!(sys_set_priority(&mut k, 1), -1);
    assert_eq!(sys_set_priority(&mut k, 0), -1);
    assert_eq!(sys_set_priority(&mut k, -7), -1);
    assert_eq!(k.current.as_ref().unwrap().priority, DEFAULT_PRIORITY);
}

#[test]
fn priority_two_gives_half_the_big_stride_as_pass() {
    let mut k = Kernel::new(&image());
    assert_eq!(sys_set_priority(&mut k, 2), 2);
    assert_eq!(k.current.as_ref().unwrap().priority, 2);
    let before = k.current.as_ref().unwrap().stride;
    sys_yield(&mut k);
    let after = k.current.as_ref().unwrap().stride;
    assert_eq!(after - before, BIG_STRIDE / 2);
    assert_eq!(after - before, 0x8_0000);
}

#[test]
fn exit_of_the_last_task_leaves_the_processor_idle() {
    let mut k = Kernel::new(&image());
    sys_exit(&mut k, 1);
    assert!(k.current.is_none());
    assert_eq!(k.zombies.len(), 1);
    assert_eq!(k.zombies[0].status, TaskStatus::Zombie);
    assert_eq!(k.zombies[0].exit_code, 1);
    assert!(copy_vaddr_paddr(&k.zombies[0].memory_set, 0x1_0000, 1).is_err());
}

#[test]
fn children_of_an_exited_task_stay_alive() {
    let mut k = Kernel::new(&image());
    sys_fork(&mut k);
    sys_exit(&mut k, 0);
    assert_eq!(sys_getpid(&k), 1);
    assert_eq!(k.current.as_ref().unwrap().parent, Some(0));
    assert_eq!(k.zombies[0].children, vec![1]);
}
