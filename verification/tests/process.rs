use proc_core::config::{MAX_SYSCALL_NUM, SYSCALL_MMAP, SYSCALL_TASK_INFO};
use proc_core::kernel::Kernel;
use proc_core::mm::AddressSpace;
use proc_core::syscall::{
    sys_exec, sys_exit, sys_fork, sys_get_time, sys_getpid, sys_mmap, sys_munmap, sys_sbrk,
    sys_set_priority, sys_spawn, sys_task_info, sys_waitpid, sys_yield,
};
use proc_core::task::{find_by_pid, TaskStatus};

const PAGE: usize = 4096;
/// Page the program image maps, holding its own name for exec/spawn calls.
const NAME_PTR: usize = 0x1000;
/// Page the tests map for syscall out-parameters.
const OUT_PTR: usize = 0x3000;

fn boot() -> (Kernel, usize) {
    let mut image = AddressSpace::empty(0x100000);
    assert_eq!(image.mmap(NAME_PTR, PAGE, 3), 0);
    assert!(image.write_buffer(NAME_PTR, &b"app".to_vec()));
    let mut k = Kernel::new();
    assert!(k.register_program(b"app".to_vec(), image));
    let root = k.spawn_root(&b"app".to_vec()).unwrap();
    k.dispatch();
    assert_eq!(k.current, Some(root));
    (k, root)
}

fn idx(k: &Kernel, pid: usize) -> usize {
    find_by_pid(&k.tasks, pid).expect("task should be live")
}

fn read_i32(k: &Kernel, pid: usize, addr: usize) -> i32 {
    let b = k.tasks[idx(k, pid)].memory_set.read_bytes(addr, 4).unwrap();
    i32::from_le_bytes([b[0], b[1], b[2], b[3]])
}

#[test]
fn boot_dispatches_the_root_task() {
    let (mut k, root) = boot();
    assert_eq!(sys_getpid(&mut k), root as isize);
    let t = &k.tasks[idx(&k, root)];
    assert_eq!(t.status, TaskStatus::Running);
    assert_eq!(t.parent, None);
    assert_eq!(t.first_scheduled_time, Some(0));
}

#[test]
fn fork_gives_the_child_zero_and_the_parent_its_pid() {
    let (mut k, root) = boot();
    assert_eq!(sys_mmap(&mut k, OUT_PTR, PAGE, 3), 0);
    let marker = vec![0xaau8; 4];
    let ri = idx(&k, root);
    assert!(k.tasks[ri].memory_set.write_buffer(OUT_PTR, &marker));
    let child = sys_fork(&mut k) as usize;
    assert_ne!(child, root);
    let c = &k.tasks[idx(&k, child)];
    assert_eq!(c.trap_cx.a0, 0);
    assert_eq!(c.status, TaskStatus::Ready);
    assert_eq!(c.parent, Some(root));
    assert_eq!(k.tasks[idx(&k, root)].children, vec![child]);
    // the child sees the parent's bytes
    assert_eq!(
        k.tasks[idx(&k, child)].memory_set.read_bytes(OUT_PTR, 4).unwrap(),
        marker
    );
    // a write in one space is invisible in the other
    let other = vec![0x55u8; 4];
    let ci = idx(&k, child);
    assert!(k.tasks[ci].memory_set.write_buffer(OUT_PTR, &other));
    assert_eq!(
        k.tasks[idx(&k, root)].memory_set.read_bytes(OUT_PTR, 4).unwrap(),
        marker
    );
    assert_eq!(
        k.tasks[idx(&k, child)].memory_set.read_bytes(OUT_PTR, 4).unwrap(),
        other
    );
}

#[test]
fn waitpid_reports_missing_then_running_then_reaps() {
    let (mut k, root) = boot();
    assert_eq!(sys_mmap(&mut k, OUT_PTR, PAGE, 3), 0);
    // no children at all
    assert_eq!(sys_waitpid(&mut k, -1, OUT_PTR), -1);
    let child = sys_fork(&mut k) as usize;
    // the child exists but has not exited
    assert_eq!(sys_waitpid(&mut k, -1, OUT_PTR), -2);
    assert_eq!(sys_waitpid(&mut k, child as isize, OUT_PTR), -2);
    // a pid nobody has
    assert_eq!(sys_waitpid(&mut k, 999, OUT_PTR), -1);
    // run the child until it exits
    assert_eq!(sys_yield(&mut k), 0);
    assert_eq!(k.current, Some(child));
    sys_exit(&mut k, 42);
    assert_eq!(k.current, Some(root));
    assert_eq!(
        k.tasks[idx(&k, child)].status,
        TaskStatus::Zombie
    );
    // reap it: its pid comes back and its exit code lands at the pointer
    assert_eq!(sys_waitpid(&mut k, child as isize, OUT_PTR), child as isize);
    assert_eq!(read_i32(&k, root, OUT_PTR), 42);
    assert!(find_by_pid(&k.tasks, child).is_none());
    assert!(k.tasks[idx(&k, root)].children.is_empty());
    // the reaped pid is gone for good
    assert_eq!(sys_waitpid(&mut k, child as isize, OUT_PTR), -1);
    assert_eq!(sys_waitpid(&mut k, -1, OUT_PTR), -1);
}

#[test]
fn waitpid_wildcard_takes_the_first_exited_child() {
    let (mut k, root) = boot();
    assert_eq!(sys_mmap(&mut k, OUT_PTR, PAGE, 3), 0);
    let a = sys_fork(&mut k) as usize;
    let b = sys_fork(&mut k) as usize;
    // run child a to completion, leave b alive
    assert_eq!(sys_yield(&mut k), 0);
    assert_eq!(k.current, Some(a));
    sys_exit(&mut k, 7);
    // b runs next; make it exit too
    assert_eq!(k.current, Some(b));
    sys_exit(&mut k, 8);
    assert_eq!(k.current, Some(root));
    // wildcard reaps in child-list order: a first
    assert_eq!(sys_waitpid(&mut k, -1, OUT_PTR), a as isize);
    assert_eq!(read_i32(&k, root, OUT_PTR), 7);
    assert_eq!(sys_waitpid(&mut k, -1, OUT_PTR), b as isize);
    assert_eq!(read_i32(&k, root, OUT_PTR), 8);
    assert_eq!(sys_waitpid(&mut k, -1, OUT_PTR), -1);
}

#[test]
fn task_info_counts_each_syscall_exactly() {
    let (mut k, root) = boot();
    assert_eq!(sys_mmap(&mut k, OUT_PTR, PAGE, 3), 0);
    // two more mmap calls; the failing one is an invocation all the same
    assert_eq!(sys_mmap(&mut k, OUT_PTR, PAGE, 3), -1);
    assert_eq!(sys_mmap(&mut k, 0x5000, PAGE, 3), 0);
    assert_eq!(sys_task_info(&mut k, OUT_PTR), 0);
    let info = k.tasks[idx(&k, root)]
        .memory_set
        .read_bytes(OUT_PTR, 4 + 4 * MAX_SYSCALL_NUM + 8)
        .unwrap();
    let count = |id: usize| {
        let off = 4 + 4 * id;
        u32::from_le_bytes([info[off], info[off + 1], info[off + 2], info[off + 3]])
    };
    assert_eq!(info[0], 1); // reported status: Running
    assert_eq!(count(SYSCALL_MMAP), 3);
    // the call counts itself before reporting
    assert_eq!(count(SYSCALL_TASK_INFO), 1);
    // a second call sees both invocations
    assert_eq!(sys_task_info(&mut k, OUT_PTR), 0);
    let info2 = k.tasks[idx(&k, root)]
        .memory_set
        .read_bytes(OUT_PTR, 4 + 4 * MAX_SYSCALL_NUM + 8)
        .unwrap();
    let off = 4 + 4 * SYSCALL_TASK_INFO;
    assert_eq!(
        u32::from_le_bytes([info2[off], info2[off + 1], info2[off + 2], info2[off + 3]]),
        2
    );
}

#[test]
fn task_info_reports_elapsed_milliseconds() {
    let (mut k, root) = boot();
    assert_eq!(sys_mmap(&mut k, OUT_PTR, PAGE, 3), 0);
    k.advance_time(7_500);
    assert_eq!(sys_task_info(&mut k, OUT_PTR), 0);
    let info = k.tasks[idx(&k, root)]
        .memory_set
        .read_bytes(OUT_PTR, 4 + 4 * MAX_SYSCALL_NUM + 8)
        .unwrap();
    let toff = 4 + 4 * MAX_SYSCALL_NUM;
    let mut word = [0u8; 8];
    word.copy_from_slice(&info[toff..toff + 8]);
    assert_eq!(u64::from_le_bytes(word), 7);
}

#[test]
fn get_time_marshals_seconds_and_microseconds() {
    let (mut k, root) = boot();
    assert_eq!(sys_mmap(&mut k, OUT_PTR, PAGE, 3), 0);
    k.advance_time(2_500_000);
    // straddle a page boundary on purpose
    assert_eq!(sys_mmap(&mut k, 0x4000, PAGE, 3), 0);
    let ptr = 0x4000 - 8;
    assert_eq!(sys_get_time(&mut k, ptr, 0), 0);
    let b = k.tasks[idx(&k, root)].memory_set.read_bytes(ptr, 16).unwrap();
    let mut sec = [0u8; 8];
    sec.copy_from_slice(&b[0..8]);
    let mut usec = [0u8; 8];
    usec.copy_from_slice(&b[8..16]);
    assert_eq!(u64::from_le_bytes(sec), 2);
    assert_eq!(u64::from_le_bytes(usec), 500_000);
}

#[test]
fn sbrk_returns_the_previous_break_and_restores() {
    let (mut k, root) = boot();
    let origin = k.tasks[idx(&k, root)].memory_set.program_break;
    assert_eq!(sys_sbrk(&mut k, 100), origin as isize);
    assert_eq!(sys_sbrk(&mut k, -100), (origin + 100) as isize);
    assert_eq!(k.tasks[idx(&k, root)].memory_set.program_break, origin);
    // shrinking below the heap origin is refused
    assert_eq!(sys_sbrk(&mut k, -1), -1);
    assert_eq!(k.tasks[idx(&k, root)].memory_set.program_break, origin);
}

#[test]
fn set_priority_accepts_two_and_up() {
    let (mut k, root) = boot();
    assert_eq!(sys_set_priority(&mut k, 1), -1);
    assert_eq!(sys_set_priority(&mut k, 0), -1);
    assert_eq!(sys_set_priority(&mut k, -3), -1);
    assert_eq!(sys_set_priority(&mut k, 2), 2);
    assert_eq!(k.tasks[idx(&k, root)].priority, 2);
    assert_eq!(sys_set_priority(&mut k, 10), 10);
    assert_eq!(k.tasks[idx(&k, root)].priority, 10);
}

#[test]
fn exec_replaces_the_address_space_in_place() {
    let (mut k, root) = boot();
    // an unknown name changes nothing
    assert_eq!(sys_mmap(&mut k, 0x2000, PAGE, 3), 0);
    let nope = b"nope".to_vec();
    let ri = idx(&k, root);
    assert!(k.tasks[ri].memory_set.write_buffer(0x2000, &nope));
    assert_eq!(sys_exec(&mut k, 0x2000), -1);
    assert!(k.tasks[idx(&k, root)].memory_set.find_page(2).is_some());
    // a known name replaces the space wholesale
    assert_eq!(sys_exec(&mut k, NAME_PTR), 0);
    let t = &k.tasks[idx(&k, root)];
    assert_eq!(t.pid, root);
    assert_eq!(t.trap_cx.a0, 0);
    assert!(t.memory_set.find_page(2).is_none());
    assert!(t.memory_set.find_page(NAME_PTR / PAGE).is_some());
}

#[test]
fn spawn_creates_a_child_from_the_image_directly() {
    let (mut k, root) = boot();
    let child = sys_spawn(&mut k, NAME_PTR);
    assert!(child >= 0);
    let child = child as usize;
    let c = &k.tasks[idx(&k, child)];
    assert_eq!(c.parent, Some(root));
    assert_eq!(c.status, TaskStatus::Ready);
    assert_eq!(c.trap_cx.a0, 0);
    assert_eq!(k.tasks[idx(&k, root)].children, vec![child]);
    assert_eq!(k.manager.ready_queue, vec![child]);
    // the child got the image, not a copy of the parent's space
    assert_eq!(sys_mmap(&mut k, 0x7000, PAGE, 3), 0);
    let child2 = sys_spawn(&mut k, NAME_PTR) as usize;
    assert!(k.tasks[idx(&k, child2)].memory_set.find_page(7).is_none());
    // unknown names fail
    assert_eq!(sys_mmap(&mut k, 0x2000, PAGE, 3), 0);
    let nope = b"nope".to_vec();
    let ri = idx(&k, root);
    assert!(k.tasks[ri].memory_set.write_buffer(0x2000, &nope));
    assert_eq!(sys_spawn(&mut k, 0x2000), -1);
}

#[test]
fn exit_releases_memory_and_keeps_the_zombie() {
    let (mut k, root) = boot();
    let child = sys_fork(&mut k) as usize;
    assert_eq!(sys_yield(&mut k), 0);
    assert_eq!(k.current, Some(child));
    sys_exit(&mut k, 3);
    let c = &k.tasks[idx(&k, child)];
    assert_eq!(c.status, TaskStatus::Zombie);
    assert_eq!(c.exit_code, 3);
    assert!(c.memory_set.pages.is_empty());
    // the exited task is neither current nor queued
    assert_eq!(k.current, Some(root));
    assert!(!k.manager.ready_queue.contains(&child));
}

#[test]
fn stride_dispatch_favours_the_larger_priority_proportionally() {
    let (mut k, root) = boot();
    let a = sys_fork(&mut k) as usize;
    let b = sys_fork(&mut k) as usize;
    sys_exit(&mut k, 0);
    // the two children now share the processor under the stride policy
    let mut ran_a: usize = 0;
    let mut ran_b: usize = 0;
    let mut primed_a = false;
    let mut primed_b = false;
    for _ in 0..60 {
        let cur = k.current.expect("a child should be running");
        if cur == a {
            ran_a += 1;
            if !primed_a {
                assert_eq!(sys_set_priority(&mut k, 2), 2);
                primed_a = true;
            }
        } else {
            assert_eq!(cur, b);
            ran_b += 1;
            if !primed_b {
                assert_eq!(sys_set_priority(&mut k, 10), 10);
                primed_b = true;
            }
        }
        assert_eq!(sys_yield(&mut k), 0);
    }
    assert_ne!(root, a);
    // pass = BIG_STRIDE / priority: the divisor-10 task advances its stride
    // five times more slowly, so it is dispatched about five times as often
    assert!(ran_b >= 4 * ran_a, "b ran {ran_b}, a ran {ran_a}");
    assert!(ran_a >= 5, "a ran {ran_a}");
}

#[test]
fn yield_round_robins_equal_tasks() {
    let (mut k, _root) = boot();
    let a = sys_fork(&mut k) as usize;
    // parent and child share stride and priority: they alternate
    assert_eq!(sys_yield(&mut k), 0);
    assert_eq!(k.current, Some(a));
    assert_eq!(sys_yield(&mut k), 0);
    assert_ne!(k.current, Some(a));
    assert_eq!(sys_yield(&mut k), 0);
    assert_eq!(k.current, Some(a));
}

#[test]
fn munmap_through_the_syscall_layer() {
    let (mut k, root) = boot();
    assert_eq!(sys_mmap(&mut k, OUT_PTR, 2 * PAGE, 3), 0);
    assert_eq!(sys_munmap(&mut k, OUT_PTR, PAGE), 0);
    let t = &k.tasks[idx(&k, root)];
    assert!(t.memory_set.find_page(OUT_PTR / PAGE).is_none());
    assert!(t.memory_set.find_page(OUT_PTR / PAGE + 1).is_some());
    assert_eq!(sys_munmap(&mut k, OUT_PTR, PAGE), -1);
}
