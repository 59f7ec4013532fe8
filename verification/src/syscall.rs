//! Process-management syscalls: the validating entry points a trap hands
//! each call to.  Every handler counts its own invocation in the calling
//! task's telemetry as a side effect of running.
use vstd::prelude::*;

use crate::config::{
    MAX_SYSCALL_NUM, MIN_PRIORITY, SYSCALL_EXEC, SYSCALL_EXIT, SYSCALL_FORK, SYSCALL_GETPID,
    SYSCALL_GET_TIME, SYSCALL_MMAP, SYSCALL_MUNMAP, SYSCALL_SBRK, SYSCALL_SET_PRIORITY,
    SYSCALL_SPAWN, SYSCALL_TASK_INFO, SYSCALL_WAITPID, SYSCALL_YIELD,
};
use crate::kernel::{counted, counted_only, sched_equiv, sched_equiv_counted, Kernel};
use crate::mm::{mmap_accepts, mmap_post, munmap_accepts, munmap_post, sbrk_accepts};
use crate::task::{TaskControlBlock, TaskStatus};
use crate::wire::{task_info_bytes, task_info_wire_len, time_val_bytes, TaskInfo, TimeVal};

verus! {

/// Everything of the kernel but the running task's block is as it was.
pub open spec fn only_current_task_touched(pre: Kernel, post: Kernel) -> bool {
    &&& post.manager == pre.manager
    &&& post.current == pre.current
    &&& post.next_pid == pre.next_pid
    &&& post.programs == pre.programs
    &&& post.time_us == pre.time_us
    &&& forall|p: usize| #![trigger post.has_pid(p)] #![trigger pre.has_pid(p)]
        post.has_pid(p) == pre.has_pid(p)
    &&& forall|p: usize|
        pre.has_pid(p) && p != pre.cur_pid()
            ==> #[trigger] post.task_with(p) == pre.task_with(p)
}

/// Returns the calling task's pid; it fits the return register, so no
/// marshalling is involved.
pub fn sys_getpid(kernel: &mut Kernel) -> (r: isize)
    requires
        old(kernel).wf(),
        old(kernel).has_current(),
    ensures
        final(kernel).wf(),
        final(kernel).has_current(),
        r == old(kernel).cur_pid() as isize,
        only_current_task_touched(*old(kernel), *final(kernel)),
        counted_only(
            old(kernel).cur_task(),
            final(kernel).cur_task(),
            SYSCALL_GETPID as int,
        ),
{
    let i = kernel.current_index();
    let ghost pre = *kernel;
    let pid = kernel.tasks[i].getpid();
    let t = &mut kernel.tasks[i];
    t.record_syscall(SYSCALL_GETPID);
    proof {
        sys_epilogue(pre, *kernel, i as int);
    }
    pid as isize
}

/// Re-checks the invariant and the frame after a handler changed only the
/// running task's block, keeping its pid, status, tree links and
/// first-dispatch stamp.
pub(crate) proof fn sys_epilogue(pre: Kernel, post: Kernel, i: int)
    requires
        pre.wf(),
        pre.has_current(),
        i == pre.idx_of_pid(pre.cur_pid()),
        0 <= i < pre.tasks@.len(),
        post.tasks@.len() == pre.tasks@.len(),
        forall|j: int|
            0 <= j < pre.tasks@.len() && j != i ==> #[trigger] post.tasks@[j] == pre.tasks@[j],
        post.tasks@[i].pid == pre.tasks@[i].pid,
        post.tasks@[i].status == pre.tasks@[i].status,
        post.tasks@[i].parent == pre.tasks@[i].parent,
        post.tasks@[i].children@ == pre.tasks@[i].children@,
        post.tasks@[i].first_scheduled_time == pre.tasks@[i].first_scheduled_time,
        post.tasks@[i].wf(),
        post.manager == pre.manager,
        post.current == pre.current,
        post.next_pid == pre.next_pid,
        post.programs == pre.programs,
        post.time_us == pre.time_us,
    ensures
        post.wf(),
        post.has_current(),
        only_current_task_touched(pre, post),
        post.cur_task() == post.tasks@[i],
        post.idx_of_pid(post.cur_pid()) == i,
{
    pre.lemma_current();
    Kernel::lemma_update_entry_transfer(pre, post, i);
    Kernel::lemma_keep_status_transfer(pre, post, i);
    Kernel::lemma_update_view(pre, post, i);
    assert(post.task_with(post.cur_pid()) == post.tasks@[i]);
}

/// Gives the processor up: the calling task goes back to Ready, re-enters
/// the queue, and the stride-minimal Ready task — possibly the same one —
/// is dispatched.  Always returns 0.
pub fn sys_yield(kernel: &mut Kernel) -> (r: isize)
    requires
        old(kernel).wf(),
        old(kernel).has_current(),
    ensures
        final(kernel).wf(),
        final(kernel).has_current(),
        r == 0,
        final(kernel).next_pid == old(kernel).next_pid,
        final(kernel).programs == old(kernel).programs,
        final(kernel).time_us == old(kernel).time_us,
        forall|p: usize| #![trigger final(kernel).has_pid(p)] #![trigger old(kernel).has_pid(p)]
            final(kernel).has_pid(p) == old(kernel).has_pid(p),
        sched_equiv_counted(
            old(kernel).cur_task(),
            final(kernel).task_with(old(kernel).cur_pid()),
            SYSCALL_YIELD as int,
        ),
        forall|p: usize|
            old(kernel).has_pid(p) && p != old(kernel).cur_pid()
                ==> sched_equiv(old(kernel).task_with(p), #[trigger] final(kernel).task_with(p)),
        final(kernel).cur_pid() != old(kernel).cur_pid()
            ==> final(kernel).task_with(old(kernel).cur_pid()).status == TaskStatus::Ready,
        ({
            // the yielder, re-labelled Ready, joins the back of the queue,
            // and the stride-minimal entry of that queue is dispatched
            let p0 = old(kernel).cur_pid();
            let q1 = old(kernel).manager.ready_queue@.push(p0);
            let tasks1 = old(kernel).tasks@.update(
                old(kernel).idx_of_pid(p0),
                TaskControlBlock { status: TaskStatus::Ready, ..old(kernel).cur_task() },
            );
            exists|k: int, i: int|
                {
                    &&& #[trigger] crate::manager::fetch_choice(q1, tasks1, k, i)
                    &&& final(kernel).current == Some(q1[k])
                    &&& final(kernel).manager.ready_queue@ == q1.remove(k)
                    &&& final(kernel).cur_task().stride == crate::manager::wrap_add64_spec(
                        tasks1[i].stride,
                        crate::config::BIG_STRIDE / tasks1[i].priority,
                    )
                    &&& (q1[k] != p0 ==> exists|m: int|
                        0 <= m < final(kernel).manager.ready_queue@.len()
                            && (#[trigger] final(kernel).manager.ready_queue@[m]) == p0)
                }
        }),
{
    let i = kernel.current_index();
    let ghost pre = *kernel;
    let p = kernel.tasks[i].getpid();
    let t = &mut kernel.tasks[i];
    t.record_syscall(SYSCALL_YIELD);
    t.status = TaskStatus::Ready;
    kernel.current = None;
    proof {
        pre.lemma_current();
        Kernel::lemma_update_entry_transfer(pre, *kernel, i as int);
        Kernel::lemma_update_view(pre, *kernel, i as int);
        assert forall|k: int| 0 <= k < kernel.manager.ready_queue@.len()
            implies #[trigger] kernel.queue_entry_ok(k) by {
            assert(pre.queue_entry_ok(k));
            let j = choose|j: int|
                0 <= j < pre.tasks@.len()
                    && (#[trigger] pre.tasks@[j]).pid == pre.manager.ready_queue@[k]
                    && pre.tasks@[j].status == TaskStatus::Ready;
            assert(j != i as int);
            assert(kernel.tasks@[j].pid == kernel.manager.ready_queue@[k]);
        }
        assert forall|j: int|
            0 <= j < kernel.tasks@.len()
                && (#[trigger] kernel.tasks@[j]).status == TaskStatus::Running
            implies kernel.current == Some(kernel.tasks@[j].pid) by {
            if j != i as int {
                assert(pre.tasks@[j].status == TaskStatus::Running);
                assert(pre.current == Some(pre.tasks@[j].pid));
                assert(pre.tasks@[j].pid == pre.cur_pid());
                pre.lemma_task_at(j);
                assert(false);
            }
        }
        // the yielded pid is in no queue entry: those were Ready, it ran
        assert forall|k: int| 0 <= k < kernel.manager.ready_queue@.len()
            implies kernel.manager.ready_queue@[k] != p by {
            assert(pre.queue_entry_ok(k));
            let j = choose|j: int|
                0 <= j < pre.tasks@.len()
                    && (#[trigger] pre.tasks@[j]).pid == pre.manager.ready_queue@[k]
                    && pre.tasks@[j].status == TaskStatus::Ready;
            if pre.manager.ready_queue@[k] == p {
                pre.lemma_task_at(j);
                assert(false);
            }
        }
        assert(kernel.has_pid(p));
        assert(kernel.task_with(p) == kernel.tasks@[i as int]);
    }
    let ghost mid = *kernel;
    kernel.add_task(p);
    let ghost mid2 = *kernel;
    proof {
        assert(mid2.task_with(p) == mid.task_with(p));
        assert(mid2.queue_entry_ok(mid2.manager.ready_queue@.len() - 1));
        assert(mid2.queue_has_ready());
    }
    kernel.dispatch();
    proof {
        assert forall|q: usize| pre.has_pid(q) && q != p
            implies sched_equiv(pre.task_with(q), #[trigger] kernel.task_with(q)) by {
            assert(mid2.task_with(q) == pre.task_with(q));
            assert(sched_equiv(mid2.task_with(q), kernel.task_with(q)));
        }
        assert(sched_equiv(mid2.task_with(p), kernel.task_with(p)));
        assert(mid2.task_with(p) == mid.tasks@[i as int]);
        // restate the dispatched choice over the entry state: the queue is
        // the old one with the yielder appended, and the table differs from
        // the re-labelled one only in the yielder's count table, which the
        // stride policy never reads
        let q1 = pre.manager.ready_queue@.push(p);
        let tasks1 = pre.tasks@.update(
            i as int,
            TaskControlBlock { status: TaskStatus::Ready, ..pre.cur_task() },
        );
        assert(mid2.manager.ready_queue@ == q1);
        assert(tasks1.len() == mid2.tasks@.len());
        assert forall|j: int| 0 <= j < tasks1.len()
            implies (#[trigger] tasks1[j]).pid == mid2.tasks@[j].pid
                && tasks1[j].status == mid2.tasks@[j].status
                && tasks1[j].stride == mid2.tasks@[j].stride
                && tasks1[j].priority == mid2.tasks@[j].priority by {
            if j != i as int {
                assert(tasks1[j] == pre.tasks@[j]);
                assert(mid2.tasks@[j] == pre.tasks@[j]);
            }
        }
        assert(kernel.has_current());
        let (kc, ic) = choose|kc: int, ic: int|
            {
                &&& #[trigger] crate::manager::fetch_choice(
                    mid2.manager.ready_queue@,
                    mid2.tasks@,
                    kc,
                    ic,
                )
                &&& kernel.current == Some(mid2.manager.ready_queue@[kc])
                &&& kernel.manager.ready_queue@ == mid2.manager.ready_queue@.remove(kc)
                &&& kernel.cur_task().stride == crate::manager::wrap_add64_spec(
                    mid2.tasks@[ic].stride,
                    crate::config::BIG_STRIDE / mid2.tasks@[ic].priority,
                )
            };
        assert forall|m: int, jm: int|
            0 <= m < q1.len() && 0 <= jm < tasks1.len()
                && (#[trigger] q1[m]) == (#[trigger] tasks1[jm]).pid
                && tasks1[jm].status == TaskStatus::Ready
            implies tasks1[ic].stride <= tasks1[jm].stride by {
            assert(mid2.manager.ready_queue@[m] == mid2.tasks@[jm].pid);
            assert(mid2.tasks@[jm].status == TaskStatus::Ready);
        }
        assert forall|m: int, jm: int|
            0 <= m < kc && 0 <= jm < tasks1.len()
                && (#[trigger] q1[m]) == (#[trigger] tasks1[jm]).pid
                && tasks1[jm].status == TaskStatus::Ready
            implies tasks1[ic].stride < tasks1[jm].stride by {
            assert(mid2.manager.ready_queue@[m] == mid2.tasks@[jm].pid);
            assert(mid2.tasks@[jm].status == TaskStatus::Ready);
        }
        assert(crate::manager::fetch_choice(q1, tasks1, kc, ic));
        assert(kernel.current == Some(q1[kc]));
        assert(kernel.cur_task().stride == crate::manager::wrap_add64_spec(
            tasks1[ic].stride,
            crate::config::BIG_STRIDE / tasks1[ic].priority,
        ));
        // if another task won, the yielder sits in the final queue: it was
        // the last entry, and the winner stood before it
        if q1[kc] != p {
            assert(q1[q1.len() - 1] == p);
            assert(kc != q1.len() - 1);
            let m = kernel.manager.ready_queue@.len() - 1;
            assert(kernel.manager.ready_queue@[m] == q1[q1.len() - 1]);
            assert(kernel.manager.ready_queue@[m] == p);
        }
    }
    0
}

/// Sets the calling task's scheduling priority, effective at its next
/// dispatch; values below 2 are refused with -1, accepted values are
/// returned unchanged.
pub fn sys_set_priority(kernel: &mut Kernel, prio: isize) -> (r: isize)
    requires
        old(kernel).wf(),
        old(kernel).has_current(),
    ensures
        final(kernel).wf(),
        final(kernel).has_current(),
        only_current_task_touched(*old(kernel), *final(kernel)),
        prio >= MIN_PRIORITY as isize ==> r == prio,
        prio < MIN_PRIORITY as isize ==> r == -1
            && counted_only(
            old(kernel).cur_task(),
            final(kernel).cur_task(),
            SYSCALL_SET_PRIORITY as int,
        ),
        prio >= MIN_PRIORITY as isize ==> {
            &&& final(kernel).cur_task().priority == prio as u64
            &&& final(kernel).cur_task().syscall_times@
                == counted(old(kernel).cur_task().syscall_times@, SYSCALL_SET_PRIORITY as int)
            &&& final(kernel).cur_task() == (TaskControlBlock {
                priority: final(kernel).cur_task().priority,
                syscall_times: final(kernel).cur_task().syscall_times,
                ..old(kernel).cur_task()
            })
        },
{
    let i = kernel.current_index();
    let ghost pre = *kernel;
    let t = &mut kernel.tasks[i];
    t.record_syscall(SYSCALL_SET_PRIORITY);
    let r = if prio >= 2 {
        t.priority = prio as u64;
        prio
    } else {
        -1
    };
    proof {
        sys_epilogue(pre, *kernel, i as int);
    }
    r
}

/// Maps the covering page range of `[start, start + len)` as fresh
/// anonymous memory with the permissions `port` encodes in its low three
/// bits; 0 on success, -1 when the request is malformed or the range
/// touches an existing mapping.
pub fn sys_mmap(kernel: &mut Kernel, start: usize, len: usize, port: usize) -> (r: isize)
    requires
        old(kernel).wf(),
        old(kernel).has_current(),
    ensures
        final(kernel).wf(),
        final(kernel).has_current(),
        only_current_task_touched(*old(kernel), *final(kernel)),
        r == 0 || r == -1,
        (r == 0) == mmap_accepts(old(kernel).cur_task().memory_set, start, len, port),
        r == 0 ==> mmap_post(
            old(kernel).cur_task().memory_set,
            final(kernel).cur_task().memory_set,
            start,
            len,
            port,
        ),
        r == -1 ==> final(kernel).cur_task().memory_set == old(kernel).cur_task().memory_set,
        final(kernel).cur_task().syscall_times@
            == counted(old(kernel).cur_task().syscall_times@, SYSCALL_MMAP as int),
        final(kernel).cur_task() == (TaskControlBlock {
            memory_set: final(kernel).cur_task().memory_set,
            syscall_times: final(kernel).cur_task().syscall_times,
            ..old(kernel).cur_task()
        }),
{
    let i = kernel.current_index();
    let ghost pre = *kernel;
    let t = &mut kernel.tasks[i];
    t.record_syscall(SYSCALL_MMAP);
    let r = t.memory_set.mmap(start, len, port);
    proof {
        sys_epilogue(pre, *kernel, i as int);
    }
    r
}

/// Unmaps the covering page range of `[start, start + len)`; 0 on success,
/// -1 when the request is malformed or any page of the range is unmapped.
pub fn sys_munmap(kernel: &mut Kernel, start: usize, len: usize) -> (r: isize)
    requires
        old(kernel).wf(),
        old(kernel).has_current(),
    ensures
        final(kernel).wf(),
        final(kernel).has_current(),
        only_current_task_touched(*old(kernel), *final(kernel)),
        r == 0 || r == -1,
        (r == 0) == munmap_accepts(old(kernel).cur_task().memory_set, start, len),
        r == 0 ==> munmap_post(
            old(kernel).cur_task().memory_set,
            final(kernel).cur_task().memory_set,
            start,
            len,
        ),
        r == -1 ==> final(kernel).cur_task().memory_set == old(kernel).cur_task().memory_set,
        final(kernel).cur_task().syscall_times@
            == counted(old(kernel).cur_task().syscall_times@, SYSCALL_MUNMAP as int),
        final(kernel).cur_task() == (TaskControlBlock {
            memory_set: final(kernel).cur_task().memory_set,
            syscall_times: final(kernel).cur_task().syscall_times,
            ..old(kernel).cur_task()
        }),
{
    let i = kernel.current_index();
    let ghost pre = *kernel;
    let t = &mut kernel.tasks[i];
    t.record_syscall(SYSCALL_MUNMAP);
    let r = t.memory_set.munmap(start, len);
    proof {
        sys_epilogue(pre, *kernel, i as int);
    }
    r
}

/// Moves the calling task's program break by `size` bytes, returning the
/// previous break, or -1 when the heap cannot be adjusted so.
pub fn sys_sbrk(kernel: &mut Kernel, size: i32) -> (r: isize)
    requires
        old(kernel).wf(),
        old(kernel).has_current(),
    ensures
        final(kernel).wf(),
        final(kernel).has_current(),
        only_current_task_touched(*old(kernel), *final(kernel)),
        sbrk_accepts(old(kernel).cur_task().memory_set, size) ==> {
            &&& r == old(kernel).cur_task().memory_set.program_break as isize
            &&& final(kernel).cur_task().memory_set.program_break
                == (old(kernel).cur_task().memory_set.program_break + size as int) as usize
        },
        !sbrk_accepts(old(kernel).cur_task().memory_set, size) ==> r == -1
            && final(kernel).cur_task().memory_set == old(kernel).cur_task().memory_set,
        final(kernel).cur_task().memory_set.pages == old(kernel).cur_task().memory_set.pages,
        final(kernel).cur_task().memory_set.heap_bottom
            == old(kernel).cur_task().memory_set.heap_bottom,
        final(kernel).cur_task().syscall_times@
            == counted(old(kernel).cur_task().syscall_times@, SYSCALL_SBRK as int),
        final(kernel).cur_task() == (TaskControlBlock {
            memory_set: final(kernel).cur_task().memory_set,
            syscall_times: final(kernel).cur_task().syscall_times,
            ..old(kernel).cur_task()
        }),
{
    let i = kernel.current_index();
    let ghost pre = *kernel;
    let t = &mut kernel.tasks[i];
    t.record_syscall(SYSCALL_SBRK);
    let r = match t.change_program_brk(size) {
        Some(old_brk) => old_brk as isize,
        None => -1,
    };
    proof {
        sys_epilogue(pre, *kernel, i as int);
    }
    r
}

/// The milliseconds the task has existed for since its first dispatch;
/// zero before one.
pub open spec fn elapsed_ms(t: TaskControlBlock, now: usize) -> usize {
    match t.first_scheduled_time {
        Some(f) => (((now - f) as int) / 1000) as usize,
        None => 0,
    }
}

/// Writes the current wall-clock time as a `TimeVal` byte-for-byte through
/// the caller-supplied pointer, splitting at page boundaries as needed.
/// The timezone argument is ignored, as the convention has it.
pub fn sys_get_time(kernel: &mut Kernel, ts: usize, _tz: usize) -> (r: isize)
    requires
        old(kernel).wf(),
        old(kernel).has_current(),
        ts + 16 <= usize::MAX,
        old(kernel).cur_task().memory_set.range_writable(ts as int, 16),
    ensures
        final(kernel).wf(),
        final(kernel).has_current(),
        only_current_task_touched(*old(kernel), *final(kernel)),
        r == 0,
        crate::mm::write_bytes_post(
            old(kernel).cur_task().memory_set,
            final(kernel).cur_task().memory_set,
            ts as int,
            time_val_bytes(TimeVal {
                sec: old(kernel).time_us / 1000000,
                usec: old(kernel).time_us % 1000000,
            }),
        ),
        final(kernel).cur_task().syscall_times@
            == counted(old(kernel).cur_task().syscall_times@, SYSCALL_GET_TIME as int),
        final(kernel).cur_task() == (TaskControlBlock {
            memory_set: final(kernel).cur_task().memory_set,
            syscall_times: final(kernel).cur_task().syscall_times,
            ..old(kernel).cur_task()
        }),
{
    let i = kernel.current_index();
    let ghost pre = *kernel;
    let us = kernel.time_us;
    let time_val = TimeVal { sec: us / 1000000, usec: us % 1000000 };
    let serialized = time_val.to_bytes();
    let t = &mut kernel.tasks[i];
    t.record_syscall(SYSCALL_GET_TIME);
    let ok = t.memory_set.write_buffer(ts, &serialized);
    assert(ok);
    proof {
        sys_epilogue(pre, *kernel, i as int);
    }
    0
}

/// Writes the calling task's `TaskInfo` — status, per-syscall invocation
/// counts, milliseconds since first dispatch — byte-for-byte through the
/// caller-supplied pointer.  The handler counts its own invocation before
/// serializing, so the reported table includes this very call.
pub fn sys_task_info(kernel: &mut Kernel, ti: usize) -> (r: isize)
    requires
        old(kernel).wf(),
        old(kernel).has_current(),
        ti + task_info_wire_len() <= usize::MAX,
        old(kernel).cur_task().memory_set.range_writable(ti as int, task_info_wire_len()),
    ensures
        final(kernel).wf(),
        final(kernel).has_current(),
        only_current_task_touched(*old(kernel), *final(kernel)),
        r == 0,
        final(kernel).cur_task().syscall_times@
            == counted(old(kernel).cur_task().syscall_times@, SYSCALL_TASK_INFO as int),
        crate::mm::write_bytes_post(
            old(kernel).cur_task().memory_set,
            final(kernel).cur_task().memory_set,
            ti as int,
            task_info_bytes(TaskInfo {
                status: TaskStatus::Running,
                syscall_times: final(kernel).cur_task().syscall_times,
                time: elapsed_ms(old(kernel).cur_task(), old(kernel).time_us),
            }),
        ),
        final(kernel).cur_task() == (TaskControlBlock {
            memory_set: final(kernel).cur_task().memory_set,
            syscall_times: final(kernel).cur_task().syscall_times,
            ..old(kernel).cur_task()
        }),
{
    let i = kernel.current_index();
    let ghost pre = *kernel;
    let now = kernel.time_us;
    {
        let t = &mut kernel.tasks[i];
        t.record_syscall(SYSCALL_TASK_INFO);
    }
    proof {
        pre.lemma_current();
        assert(pre.tasks@[i as int].first_scheduled_time is Some
            ==> pre.tasks@[i as int].first_scheduled_time->0 <= pre.time_us);
    }
    let time = match kernel.tasks[i].first_scheduled_time {
        Some(f) => (now - f) / 1000,
        None => 0,
    };
    let counts = crate::task::clone_counts(&kernel.tasks[i].syscall_times);
    let info = TaskInfo::new(TaskStatus::Running, counts, time);
    let serialized = info.to_bytes();
    proof {
        crate::wire::lemma_counts_bytes_len(info.syscall_times@);
        assert(serialized@.len() == task_info_wire_len());
    }
    let t = &mut kernel.tasks[i];
    let ok = t.memory_set.write_buffer(ti, &serialized);
    assert(ok);
    proof {
        sys_epilogue(pre, *kernel, i as int);
    }
    0
}

/// Ends the calling task: it becomes a Zombie holding `exit_code` for its
/// parent to reap, its mapped pages are released, and the next Ready task
/// (if any) is dispatched.  Its children are not reparented: they stay in
/// the zombie's child list, waitable only through it.  In the syscall
/// convention this call never returns to the caller; here control goes back
/// to the trap loop with the task no longer current.
pub fn sys_exit(kernel: &mut Kernel, exit_code: i32)
    requires
        old(kernel).wf(),
        old(kernel).has_current(),
    ensures
        final(kernel).wf(),
        final(kernel).next_pid == old(kernel).next_pid,
        final(kernel).programs == old(kernel).programs,
        final(kernel).time_us == old(kernel).time_us,
        forall|p: usize| #![trigger final(kernel).has_pid(p)] #![trigger old(kernel).has_pid(p)]
            final(kernel).has_pid(p) == old(kernel).has_pid(p),
        final(kernel).task_with(old(kernel).cur_pid()).status == TaskStatus::Zombie,
        final(kernel).task_with(old(kernel).cur_pid()).exit_code == exit_code,
        forall|v: int| !final(kernel).task_with(old(kernel).cur_pid()).memory_set.mapped(v),
        final(kernel).task_with(old(kernel).cur_pid()).children@
            == old(kernel).cur_task().children@,
        final(kernel).task_with(old(kernel).cur_pid()).parent == old(kernel).cur_task().parent,
        final(kernel).task_with(old(kernel).cur_pid()).syscall_times@
            == counted(old(kernel).cur_task().syscall_times@, SYSCALL_EXIT as int),
        forall|p: usize|
            old(kernel).has_pid(p) && p != old(kernel).cur_pid()
                ==> sched_equiv(old(kernel).task_with(p), #[trigger] final(kernel).task_with(p)),
        final(kernel).has_current() ==> final(kernel).cur_pid() != old(kernel).cur_pid(),
        final(kernel).has_current() == old(kernel).queue_has_ready(),
        !final(kernel).has_current()
            ==> final(kernel).manager.ready_queue@ == old(kernel).manager.ready_queue@,
        final(kernel).has_current() ==> exists|k: int, i: int|
            {
                &&& #[trigger] crate::manager::fetch_choice(
                    old(kernel).manager.ready_queue@,
                    old(kernel).tasks@,
                    k,
                    i,
                )
                &&& final(kernel).current == Some(old(kernel).manager.ready_queue@[k])
                &&& final(kernel).manager.ready_queue@
                    == old(kernel).manager.ready_queue@.remove(k)
                &&& final(kernel).cur_task().stride == crate::manager::wrap_add64_spec(
                    old(kernel).tasks@[i].stride,
                    crate::config::BIG_STRIDE / old(kernel).tasks@[i].priority,
                )
            },
{
    let i = kernel.current_index();
    let ghost pre = *kernel;
    let t = &mut kernel.tasks[i];
    t.record_syscall(SYSCALL_EXIT);
    t.status = TaskStatus::Zombie;
    t.exit_code = exit_code;
    t.memory_set.pages = Vec::new();
    kernel.current = None;
    proof {
        pre.lemma_current();
        Kernel::lemma_update_entry_transfer(pre, *kernel, i as int);
        Kernel::lemma_update_view(pre, *kernel, i as int);
        assert forall|k: int| 0 <= k < kernel.manager.ready_queue@.len()
            implies #[trigger] kernel.queue_entry_ok(k) by {
            assert(pre.queue_entry_ok(k));
            let j = choose|j: int|
                0 <= j < pre.tasks@.len()
                    && (#[trigger] pre.tasks@[j]).pid == pre.manager.ready_queue@[k]
                    && pre.tasks@[j].status == TaskStatus::Ready;
            assert(j != i as int);
            assert(kernel.tasks@[j].pid == kernel.manager.ready_queue@[k]);
        }
        assert forall|j: int|
            0 <= j < kernel.tasks@.len()
                && (#[trigger] kernel.tasks@[j]).status == TaskStatus::Running
            implies kernel.current == Some(kernel.tasks@[j].pid) by {
            if j != i as int {
                assert(pre.tasks@[j].status == TaskStatus::Running);
                assert(pre.current == Some(pre.tasks@[j].pid));
                pre.lemma_task_at(j);
                assert(false);
            }
        }
    }
    let ghost mid = *kernel;
    kernel.dispatch();
    proof {
        let p0 = pre.cur_pid();
        assert(mid.task_with(p0) == mid.tasks@[i as int]);
        if kernel.current == Some(p0) {
            assert(mid.task_with(p0).status == TaskStatus::Ready);
            assert(false);
        }
        assert(kernel.task_with(p0) == mid.task_with(p0));
        assert forall|q: usize| pre.has_pid(q) && q != p0
            implies sched_equiv(pre.task_with(q), #[trigger] kernel.task_with(q)) by {
            assert(mid.task_with(q) == pre.task_with(q));
            assert(sched_equiv(mid.task_with(q), kernel.task_with(q)));
        }
        if kernel.has_current() {
            if kernel.cur_pid() == p0 {
                assert(mid.task_with(p0).status == TaskStatus::Ready);
                assert(false);
            }
        }
        assert forall|v: int| !kernel.task_with(p0).memory_set.mapped(v) by {
            assert(kernel.task_with(p0).memory_set == mid.tasks@[i as int].memory_set);
        }
        // queue readiness and the scheduler's choice read the same in the
        // entry state and in the zombified one: entries never name the
        // exiting task, whose status is the only difference
        assert forall|kq: int| 0 <= kq < pre.manager.ready_queue@.len()
            implies (#[trigger] pre.queue_entry_ok(kq)) == mid.queue_entry_ok(kq) by {
            if pre.queue_entry_ok(kq) {
                let j = choose|j: int|
                    0 <= j < pre.tasks@.len()
                        && (#[trigger] pre.tasks@[j]).pid == pre.manager.ready_queue@[kq]
                        && pre.tasks@[j].status == TaskStatus::Ready;
                assert(j != i as int);
                assert(mid.tasks@[j] == pre.tasks@[j]);
                assert(mid.queue_entry_ok(kq));
            }
            if mid.queue_entry_ok(kq) {
                let j = choose|j: int|
                    0 <= j < mid.tasks@.len()
                        && (#[trigger] mid.tasks@[j]).pid == mid.manager.ready_queue@[kq]
                        && mid.tasks@[j].status == TaskStatus::Ready;
                assert(j != i as int);
                assert(pre.tasks@[j] == mid.tasks@[j]);
                assert(pre.queue_entry_ok(kq));
            }
        }
        assert(pre.queue_has_ready() == mid.queue_has_ready()) by {
            if pre.queue_has_ready() {
                let kq = choose|kq: int|
                    0 <= kq < pre.manager.ready_queue@.len()
                        && #[trigger] pre.queue_entry_ok(kq);
                assert(mid.queue_entry_ok(kq));
                assert(mid.queue_has_ready());
            }
            if mid.queue_has_ready() {
                let kq = choose|kq: int|
                    0 <= kq < mid.manager.ready_queue@.len()
                        && #[trigger] mid.queue_entry_ok(kq);
                assert(pre.queue_entry_ok(kq));
                assert(pre.queue_has_ready());
            }
        }
        if kernel.has_current() {
            let (kc, ic) = choose|kc: int, ic: int|
                {
                    &&& #[trigger] crate::manager::fetch_choice(
                        mid.manager.ready_queue@,
                        mid.tasks@,
                        kc,
                        ic,
                    )
                    &&& kernel.current == Some(mid.manager.ready_queue@[kc])
                    &&& kernel.manager.ready_queue@ == mid.manager.ready_queue@.remove(kc)
                    &&& kernel.cur_task().stride == crate::manager::wrap_add64_spec(
                        mid.tasks@[ic].stride,
                        crate::config::BIG_STRIDE / mid.tasks@[ic].priority,
                    )
                };
            assert(mid.tasks@[ic].status == TaskStatus::Ready);
            assert(ic != i as int);
            assert(mid.tasks@[ic] == pre.tasks@[ic]);
            assert forall|m: int, jm: int|
                0 <= m < pre.manager.ready_queue@.len() && 0 <= jm < pre.tasks@.len()
                    && (#[trigger] pre.manager.ready_queue@[m])
                        == (#[trigger] pre.tasks@[jm]).pid
                    && pre.tasks@[jm].status == TaskStatus::Ready
                implies pre.tasks@[ic].stride <= pre.tasks@[jm].stride by {
                assert(jm != i as int);
                assert(mid.tasks@[jm] == pre.tasks@[jm]);
            }
            assert forall|m: int, jm: int|
                0 <= m < kc && 0 <= jm < pre.tasks@.len()
                    && (#[trigger] pre.manager.ready_queue@[m])
                        == (#[trigger] pre.tasks@[jm]).pid
                    && pre.tasks@[jm].status == TaskStatus::Ready
                implies pre.tasks@[ic].stride < pre.tasks@[jm].stride by {
                assert(jm != i as int);
                assert(mid.tasks@[jm] == pre.tasks@[jm]);
            }
            assert(crate::manager::fetch_choice(
                pre.manager.ready_queue@,
                pre.tasks@,
                kc,
                ic,
            ));
        }
    }
}

/// Duplicates the calling task: the child gets a fresh pid, an
/// independently owned copy of the parent's address space, a trap context
/// whose return-value slot reads zero once it runs, an empty child list and
/// a zeroed count table; it inherits the parent's stride and priority, is
/// linked into the parent's child list and enqueued.  The parent's own
/// return value is the child's pid.
pub fn sys_fork(kernel: &mut Kernel) -> (r: isize)
    requires
        old(kernel).wf(),
        old(kernel).has_current(),
        old(kernel).next_pid < usize::MAX,
    ensures
        final(kernel).wf(),
        final(kernel).has_current(),
        final(kernel).current == old(kernel).current,
        final(kernel).next_pid == old(kernel).next_pid + 1,
        final(kernel).programs == old(kernel).programs,
        final(kernel).time_us == old(kernel).time_us,
        final(kernel).manager.ready_queue@
            == old(kernel).manager.ready_queue@.push(old(kernel).next_pid),
        r == old(kernel).next_pid as isize,
        forall|p: usize| #![trigger final(kernel).has_pid(p)] #![trigger old(kernel).has_pid(p)]
            final(kernel).has_pid(p) == (old(kernel).has_pid(p) || p == old(kernel).next_pid),
        !old(kernel).has_pid(old(kernel).next_pid),
        ({
            let child = final(kernel).task_with(old(kernel).next_pid);
            &&& child.pid == old(kernel).next_pid
            &&& child.status == TaskStatus::Ready
            &&& child.trap_cx.a0 == 0
            &&& child.parent == Some(old(kernel).cur_pid())
            &&& child.children@.len() == 0
            &&& child.exit_code == 0
            &&& child.stride == old(kernel).cur_task().stride
            &&& child.priority == old(kernel).cur_task().priority
            &&& child.syscall_times@.len() == MAX_SYSCALL_NUM
            &&& forall|j: int| 0 <= j < MAX_SYSCALL_NUM ==> child.syscall_times@[j] == 0u32
            &&& child.first_scheduled_time is None
            &&& crate::mm::same_view(old(kernel).cur_task().memory_set, child.memory_set)
        }),
        final(kernel).cur_task().children@
            == old(kernel).cur_task().children@.push(old(kernel).next_pid),
        final(kernel).cur_task().syscall_times@
            == counted(old(kernel).cur_task().syscall_times@, SYSCALL_FORK as int),
        final(kernel).cur_task() == (TaskControlBlock {
            children: final(kernel).cur_task().children,
            syscall_times: final(kernel).cur_task().syscall_times,
            ..old(kernel).cur_task()
        }),
        forall|p: usize|
            old(kernel).has_pid(p) && p != old(kernel).cur_pid()
                ==> #[trigger] final(kernel).task_with(p) == old(kernel).task_with(p),
{
    let i = kernel.current_index();
    let ghost pre = *kernel;
    let new_pid = kernel.next_pid;
    let parent_pid = kernel.tasks[i].getpid();
    let stride = kernel.tasks[i].stride;
    let priority = kernel.tasks[i].priority;
    let child_space = kernel.tasks[i].memory_set.duplicate();
    proof {
        pre.lemma_current();
        if pre.has_pid(new_pid) {
            let w = pre.idx_of_pid(new_pid);
            assert(0 <= w < pre.tasks@.len() && pre.tasks@[w].pid == new_pid);
        }
    }
    {
        let t = &mut kernel.tasks[i];
        t.record_syscall(SYSCALL_FORK);
        t.children.push(new_pid);
    }
    kernel.next_pid = new_pid + 1;
    let ghost mid = *kernel;
    let child = TaskControlBlock {
        pid: new_pid,
        status: TaskStatus::Ready,
        memory_set: child_space,
        trap_cx: crate::task::TrapContext { a0: 0 },
        parent: Some(parent_pid),
        children: Vec::new(),
        exit_code: 0,
        stride,
        priority,
        syscall_times: crate::task::zero_counts(),
        first_scheduled_time: None,
    };
    kernel.tasks.push(child);
    proof {
        let n = pre.tasks@.len() as int;
        Kernel::lemma_update_view(pre, mid, i as int);
        Kernel::lemma_push_view(mid, *kernel, child);
        // parent's grown child list stays duplicate-free: its old entries
        // name live tasks, whose pids sit below the fresh one
        assert forall|k: int| 0 <= k < pre.tasks@[i as int].children@.len()
            implies pre.tasks@[i as int].children@[k] != new_pid by {
            assert(pre.child_entry_ok(i as int, k));
            let w = choose|w: int|
                0 <= w < pre.tasks@.len()
                    && (#[trigger] pre.tasks@[w]).pid == pre.tasks@[i as int].children@[k]
                    && pre.tasks@[w].parent == Some(pre.tasks@[i as int].pid);
            assert(pre.tasks@[w].pid < pre.next_pid);
        }
        assert(kernel.tasks@[i as int].wf());
        assert(kernel.tasks@[n].wf());
        assert forall|i1: int, i2: int|
            0 <= i1 < kernel.tasks@.len() && 0 <= i2 < kernel.tasks@.len() && i1 != i2
            implies (#[trigger] kernel.tasks@[i1]).pid != (#[trigger] kernel.tasks@[i2]).pid by {
            if i1 < n && i2 < n {
                assert(pre.tasks@[i1].pid != pre.tasks@[i2].pid);
            } else if i1 == n && i2 < n {
                assert(kernel.tasks@[i2].pid == pre.tasks@[i2].pid);
                assert(pre.tasks@[i2].pid < pre.next_pid);
            } else if i2 == n && i1 < n {
                assert(kernel.tasks@[i1].pid == pre.tasks@[i1].pid);
                assert(pre.tasks@[i1].pid < pre.next_pid);
            }
        }
        assert forall|j: int| 0 <= j < kernel.tasks@.len()
            implies (#[trigger] kernel.tasks@[j]).pid < kernel.next_pid by {
            if j < n {
                assert(kernel.tasks@[j].pid == pre.tasks@[j].pid);
            }
        }
        assert(kernel.tasks_wf());
        // the parent is still the one Running task
        assert(kernel.tasks@[i as int].pid == parent_pid);
        assert(kernel.tasks@[i as int].status == TaskStatus::Running);
        assert(kernel.running_task_is(parent_pid));
        assert forall|j: int|
            0 <= j < kernel.tasks@.len()
                && (#[trigger] kernel.tasks@[j]).status == TaskStatus::Running
            implies kernel.current == Some(kernel.tasks@[j].pid) by {
            if j < n {
                assert(pre.tasks@[j].status == TaskStatus::Running);
            }
        }
        // queue entries are untouched live Ready tasks
        assert forall|k: int| 0 <= k < kernel.manager.ready_queue@.len()
            implies #[trigger] kernel.queue_entry_ok(k) by {
            assert(pre.queue_entry_ok(k));
            let w = choose|w: int|
                0 <= w < pre.tasks@.len()
                    && (#[trigger] pre.tasks@[w]).pid == pre.manager.ready_queue@[k]
                    && pre.tasks@[w].status == TaskStatus::Ready;
            assert(w != i as int);
            assert(kernel.tasks@[w].pid == kernel.manager.ready_queue@[k]);
        }
        // child lists: old entries keep their witnesses, the new entry is
        // witnessed by the child itself
        assert forall|ii: int, k: int|
            0 <= ii < kernel.tasks@.len() && 0 <= k < kernel.tasks@[ii].children@.len()
            implies #[trigger] kernel.child_entry_ok(ii, k) by {
            if ii == n {
                assert(kernel.tasks@[ii].children@.len() == 0);
            } else if ii == i as int && k == kernel.tasks@[ii].children@.len() - 1 {
                assert(kernel.tasks@[ii].children@[k] == new_pid);
                assert(kernel.tasks@[n].pid == new_pid);
                assert(kernel.tasks@[n].parent == Some(kernel.tasks@[ii].pid));
            } else {
                assert(kernel.tasks@[ii].children@[k] == pre.tasks@[ii].children@[k]);
                assert(pre.child_entry_ok(ii, k));
                let w = choose|w: int|
                    0 <= w < pre.tasks@.len()
                        && (#[trigger] pre.tasks@[w]).pid == pre.tasks@[ii].children@[k]
                        && pre.tasks@[w].parent == Some(pre.tasks@[ii].pid);
                assert(kernel.tasks@[w].pid == kernel.tasks@[ii].children@[k]);
                assert(kernel.tasks@[w].parent == Some(kernel.tasks@[ii].pid));
            }
        }
        assert forall|j: int|
            0 <= j < kernel.tasks@.len()
                && (#[trigger] kernel.tasks@[j]).first_scheduled_time is Some
            implies kernel.tasks@[j].first_scheduled_time->0 <= kernel.time_us by {
            if j < n {
                assert(kernel.tasks@[j] == mid.tasks@[j]);
            }
        }
        assert(kernel.wf());
        // the fresh pid is in no queue entry
        assert forall|k: int| 0 <= k < kernel.manager.ready_queue@.len()
            implies kernel.manager.ready_queue@[k] != new_pid by {
            assert(pre.queue_entry_ok(k));
            let w = choose|w: int|
                0 <= w < pre.tasks@.len()
                    && (#[trigger] pre.tasks@[w]).pid == pre.manager.ready_queue@[k]
                    && pre.tasks@[w].status == TaskStatus::Ready;
            assert(pre.tasks@[w].pid < pre.next_pid);
        }
        assert(kernel.task_with(new_pid) == child);
    }
    kernel.add_task(new_pid);
    proof {
        assert(kernel.task_with(parent_pid) == kernel.tasks@[i as int]);
        assert(kernel.task_with(new_pid) == child);
        assert(crate::mm::same_view(pre.cur_task().memory_set, child.memory_set));
    }
    new_pid as isize
}

/// Replaces the calling task's address space and trap context with a fresh
/// load of the program whose null-terminated name sits at `path` in the
/// caller's memory; pid and tree links are untouched, former mappings and
/// heap layout are discarded with the old space.  An unknown name is
/// reported with -1 and changes nothing.
pub fn sys_exec(kernel: &mut Kernel, path: usize) -> (r: isize)
    requires
        old(kernel).wf(),
        old(kernel).has_current(),
        old(kernel).cur_task().memory_set.has_cstr(path as int),
    ensures
        final(kernel).wf(),
        final(kernel).has_current(),
        only_current_task_touched(*old(kernel), *final(kernel)),
        (r == 0) == old(kernel).has_program(
            old(kernel).cur_task().memory_set.cstr(path as int),
        ),
        r == 0 || r == -1,
        final(kernel).cur_task().syscall_times@
            == counted(old(kernel).cur_task().syscall_times@, SYSCALL_EXEC as int),
        r == 0 ==> crate::mm::same_view(
            old(kernel).prog_with(old(kernel).cur_task().memory_set.cstr(path as int)).image,
            final(kernel).cur_task().memory_set,
        ) && final(kernel).cur_task().trap_cx.a0 == 0,
        r == -1 ==> final(kernel).cur_task().memory_set == old(kernel).cur_task().memory_set
            && final(kernel).cur_task().trap_cx == old(kernel).cur_task().trap_cx,
        final(kernel).cur_task() == (TaskControlBlock {
            memory_set: final(kernel).cur_task().memory_set,
            trap_cx: final(kernel).cur_task().trap_cx,
            syscall_times: final(kernel).cur_task().syscall_times,
            ..old(kernel).cur_task()
        }),
{
    let i = kernel.current_index();
    let ghost pre = *kernel;
    {
        let t = &mut kernel.tasks[i];
        t.record_syscall(SYSCALL_EXEC);
    }
    proof {
        sys_epilogue(pre, *kernel, i as int);
    }
    let ghost mid = *kernel;
    let name = match kernel.tasks[i].memory_set.translated_str(path) {
        Some(s) => s,
        None => {
            proof {
                assert(false);
            }
            Vec::new()
        },
    };
    match kernel.find_program(&name) {
        Some(pi) => {
            let image = kernel.programs[pi].image.duplicate();
            let t = &mut kernel.tasks[i];
            t.memory_set = image;
            t.trap_cx = crate::task::TrapContext { a0: 0 };
            proof {
                sys_epilogue(mid, *kernel, i as int);
                assert(kernel.cur_task().memory_set == image);
            }
            0
        },
        None => {
            -1
        },
    }
}

/// Creates a brand-new child directly from the program whose
/// null-terminated name sits at `path` in the caller's memory — fork and
/// exec collapsed into one allocation, with no address space copied.  The
/// child starts Ready with default priority, is linked into the caller's
/// child list and enqueued, and its pid is returned; an unknown name is
/// reported with -1 and changes nothing.
pub fn sys_spawn(kernel: &mut Kernel, path: usize) -> (r: isize)
    requires
        old(kernel).wf(),
        old(kernel).has_current(),
        old(kernel).cur_task().memory_set.has_cstr(path as int),
        old(kernel).next_pid < usize::MAX,
    ensures
        final(kernel).wf(),
        final(kernel).has_current(),
        final(kernel).current == old(kernel).current,
        final(kernel).programs == old(kernel).programs,
        final(kernel).time_us == old(kernel).time_us,
        final(kernel).cur_task().syscall_times@
            == counted(old(kernel).cur_task().syscall_times@, SYSCALL_SPAWN as int),
        !old(kernel).has_program(old(kernel).cur_task().memory_set.cstr(path as int))
            ==> r == -1 && only_current_task_touched(*old(kernel), *final(kernel))
            && counted_only(
            old(kernel).cur_task(),
            final(kernel).cur_task(),
            SYSCALL_SPAWN as int,
        ),
        old(kernel).has_program(old(kernel).cur_task().memory_set.cstr(path as int)) ==> {
            let new_pid = old(kernel).next_pid;
            let child = final(kernel).task_with(new_pid);
            &&& r == new_pid as isize
            &&& final(kernel).next_pid == old(kernel).next_pid + 1
            &&& final(kernel).manager.ready_queue@
                == old(kernel).manager.ready_queue@.push(new_pid)
            &&& forall|p: usize|
                #![trigger final(kernel).has_pid(p)]
                #![trigger old(kernel).has_pid(p)]
                final(kernel).has_pid(p) == (old(kernel).has_pid(p) || p == new_pid)
            &&& !old(kernel).has_pid(new_pid)
            &&& child.pid == new_pid
            &&& child.status == TaskStatus::Ready
            &&& child.trap_cx.a0 == 0
            &&& child.parent == Some(old(kernel).cur_pid())
            &&& child.children@.len() == 0
            &&& child.exit_code == 0
            &&& child.stride == 0
            &&& child.priority == crate::config::DEFAULT_PRIORITY
            &&& child.syscall_times@.len() == MAX_SYSCALL_NUM
            &&& forall|j: int| 0 <= j < MAX_SYSCALL_NUM ==> child.syscall_times@[j] == 0u32
            &&& child.first_scheduled_time is None
            &&& crate::mm::same_view(
                old(kernel).prog_with(
                    old(kernel).cur_task().memory_set.cstr(path as int),
                ).image,
                child.memory_set,
            )
            &&& final(kernel).cur_task().children@
                == old(kernel).cur_task().children@.push(new_pid)
            &&& final(kernel).cur_task() == (TaskControlBlock {
                children: final(kernel).cur_task().children,
                syscall_times: final(kernel).cur_task().syscall_times,
                ..old(kernel).cur_task()
            })
            &&& forall|p: usize|
                old(kernel).has_pid(p) && p != old(kernel).cur_pid()
                    ==> #[trigger] final(kernel).task_with(p) == old(kernel).task_with(p)
        },
{
    let i = kernel.current_index();
    let ghost pre = *kernel;
    {
        let t = &mut kernel.tasks[i];
        t.record_syscall(SYSCALL_SPAWN);
    }
    proof {
        sys_epilogue(pre, *kernel, i as int);
    }
    let ghost mid = *kernel;
    let name = match kernel.tasks[i].memory_set.translated_str(path) {
        Some(s) => s,
        None => {
            proof {
                assert(false);
            }
            Vec::new()
        },
    };
    let pi = match kernel.find_program(&name) {
        Some(pi) => pi,
        None => {
            return -1;
        },
    };
    let new_pid = kernel.next_pid;
    let parent_pid = kernel.tasks[i].getpid();
    let child_space = kernel.programs[pi].image.duplicate();
    proof {
        mid.lemma_current();
        if mid.has_pid(new_pid) {
            let w = mid.idx_of_pid(new_pid);
            assert(0 <= w < mid.tasks@.len() && mid.tasks@[w].pid == new_pid);
        }
    }
    {
        let t = &mut kernel.tasks[i];
        t.children.push(new_pid);
    }
    kernel.next_pid = new_pid + 1;
    let ghost mid2 = *kernel;
    let child = TaskControlBlock {
        pid: new_pid,
        status: TaskStatus::Ready,
        memory_set: child_space,
        trap_cx: crate::task::TrapContext { a0: 0 },
        parent: Some(parent_pid),
        children: Vec::new(),
        exit_code: 0,
        stride: 0,
        priority: crate::config::DEFAULT_PRIORITY,
        syscall_times: crate::task::zero_counts(),
        first_scheduled_time: None,
    };
    kernel.tasks.push(child);
    proof {
        let n = mid.tasks@.len() as int;
        Kernel::lemma_update_view(mid, mid2, i as int);
        Kernel::lemma_push_view(mid2, *kernel, child);
        assert forall|k: int| 0 <= k < mid.tasks@[i as int].children@.len()
            implies mid.tasks@[i as int].children@[k] != new_pid by {
            assert(mid.child_entry_ok(i as int, k));
            let w = choose|w: int|
                0 <= w < mid.tasks@.len()
                    && (#[trigger] mid.tasks@[w]).pid == mid.tasks@[i as int].children@[k]
                    && mid.tasks@[w].parent == Some(mid.tasks@[i as int].pid);
            assert(mid.tasks@[w].pid < mid.next_pid);
        }
        assert(kernel.tasks@[i as int].wf());
        assert(kernel.tasks@[n].wf());
        assert forall|i1: int, i2: int|
            0 <= i1 < kernel.tasks@.len() && 0 <= i2 < kernel.tasks@.len() && i1 != i2
            implies (#[trigger] kernel.tasks@[i1]).pid != (#[trigger] kernel.tasks@[i2]).pid by {
            if i1 < n && i2 < n {
                assert(mid.tasks@[i1].pid != mid.tasks@[i2].pid);
            } else if i1 == n && i2 < n {
                assert(kernel.tasks@[i2].pid == mid.tasks@[i2].pid);
                assert(mid.tasks@[i2].pid < mid.next_pid);
            } else if i2 == n && i1 < n {
                assert(kernel.tasks@[i1].pid == mid.tasks@[i1].pid);
                assert(mid.tasks@[i1].pid < mid.next_pid);
            }
        }
        assert forall|j: int| 0 <= j < kernel.tasks@.len()
            implies (#[trigger] kernel.tasks@[j]).pid < kernel.next_pid by {
            if j < n {
                assert(kernel.tasks@[j].pid == mid.tasks@[j].pid);
            }
        }
        assert(kernel.tasks_wf());
        assert(kernel.tasks@[i as int].pid == parent_pid);
        assert(kernel.tasks@[i as int].status == TaskStatus::Running);
        assert(kernel.running_task_is(parent_pid));
        assert forall|j: int|
            0 <= j < kernel.tasks@.len()
                && (#[trigger] kernel.tasks@[j]).status == TaskStatus::Running
            implies kernel.current == Some(kernel.tasks@[j].pid) by {
            if j < n {
                assert(mid.tasks@[j].status == TaskStatus::Running);
            }
        }
        assert forall|k: int| 0 <= k < kernel.manager.ready_queue@.len()
            implies #[trigger] kernel.queue_entry_ok(k) by {
            assert(mid.queue_entry_ok(k));
            let w = choose|w: int|
                0 <= w < mid.tasks@.len()
                    && (#[trigger] mid.tasks@[w]).pid == mid.manager.ready_queue@[k]
                    && mid.tasks@[w].status == TaskStatus::Ready;
            assert(w != i as int);
            assert(kernel.tasks@[w].pid == kernel.manager.ready_queue@[k]);
        }
        assert forall|ii: int, k: int|
            0 <= ii < kernel.tasks@.len() && 0 <= k < kernel.tasks@[ii].children@.len()
            implies #[trigger] kernel.child_entry_ok(ii, k) by {
            if ii == n {
                assert(kernel.tasks@[ii].children@.len() == 0);
            } else if ii == i as int && k == kernel.tasks@[ii].children@.len() - 1 {
                assert(kernel.tasks@[ii].children@[k] == new_pid);
                assert(kernel.tasks@[n].pid == new_pid);
                assert(kernel.tasks@[n].parent == Some(kernel.tasks@[ii].pid));
            } else {
                assert(kernel.tasks@[ii].children@[k] == mid.tasks@[ii].children@[k]);
                assert(mid.child_entry_ok(ii, k));
                let w = choose|w: int|
                    0 <= w < mid.tasks@.len()
                        && (#[trigger] mid.tasks@[w]).pid == mid.tasks@[ii].children@[k]
                        && mid.tasks@[w].parent == Some(mid.tasks@[ii].pid);
                assert(kernel.tasks@[w].pid == kernel.tasks@[ii].children@[k]);
                assert(kernel.tasks@[w].parent == Some(kernel.tasks@[ii].pid));
            }
        }
        assert forall|j: int|
            0 <= j < kernel.tasks@.len()
                && (#[trigger] kernel.tasks@[j]).first_scheduled_time is Some
            implies kernel.tasks@[j].first_scheduled_time->0 <= kernel.time_us by {
            if j < n {
                assert(kernel.tasks@[j] == mid2.tasks@[j]);
            }
        }
        assert(kernel.wf());
        assert forall|k: int| 0 <= k < kernel.manager.ready_queue@.len()
            implies kernel.manager.ready_queue@[k] != new_pid by {
            assert(mid.queue_entry_ok(k));
            let w = choose|w: int|
                0 <= w < mid.tasks@.len()
                    && (#[trigger] mid.tasks@[w]).pid == mid.manager.ready_queue@[k]
                    && mid.tasks@[w].status == TaskStatus::Ready;
            assert(mid.tasks@[w].pid < mid.next_pid);
        }
        assert(kernel.task_with(new_pid) == child);
    }
    kernel.add_task(new_pid);
    proof {
        assert(kernel.task_with(parent_pid) == kernel.tasks@[i as int]);
        assert(kernel.task_with(new_pid) == child);
    }
    new_pid as isize
}

/// Whether a waitpid argument selects a child: -1 is the wildcard, any
/// other value selects by identity.
pub open spec fn waitpid_match(pid: isize, cpid: usize) -> bool {
    pid == -1isize || cpid == pid as usize
}

/// Child-list entry `k` of the running task is selected and already a
/// Zombie.
pub open spec fn matching_zombie(kk: Kernel, pid: isize, k: int) -> bool {
    &&& waitpid_match(pid, kk.cur_task().children@[k])
    &&& kk.task_with(kk.cur_task().children@[k]).status == TaskStatus::Zombie
}

/// Some child of the running task is selected by `pid`.
pub open spec fn has_matching_child(kk: Kernel, pid: isize) -> bool {
    exists|k: int|
        0 <= k < kk.cur_task().children@.len()
            && waitpid_match(pid, #[trigger] kk.cur_task().children@[k])
}

/// Some selected child of the running task is already a Zombie.
pub open spec fn has_matching_zombie(kk: Kernel, pid: isize) -> bool {
    exists|k: int|
        0 <= k < kk.cur_task().children@.len() && #[trigger] matching_zombie(kk, pid, k)
}

/// A reaped child is gone for good: once waitpid has removed a pid from the
/// running task's child list, a repeated call selecting that pid finds no
/// matching child — the "no such child" report, not the exit code again.
pub proof fn lemma_reaped_pid_stays_gone(pre: Kernel, post: Kernel, pid: isize, k: int)
    requires
        pre.wf(),
        pre.has_current(),
        post.has_current(),
        post.cur_pid() == pre.cur_pid(),
        0 <= k < pre.cur_task().children@.len(),
        pid != -1isize,
        pre.cur_task().children@[k] == pid as usize,
        post.cur_task().children@ == pre.cur_task().children@.remove(k),
    ensures
        !has_matching_child(post, pid),
{
    pre.lemma_current();
    let pc = pre.cur_task().children@;
    if has_matching_child(post, pid) {
        let m = choose|m: int|
            0 <= m < post.cur_task().children@.len()
                && waitpid_match(pid, #[trigger] post.cur_task().children@[m]);
        let mo = if m < k {
            m
        } else {
            m + 1
        };
        assert(post.cur_task().children@[m] == pc[mo]);
        assert(pc[mo] != pc[k]);
    }
}

/// Position of the first selected Zombie in the running task's child list,
/// with the table index of that child.
#[verifier::loop_isolation(false)]
fn first_matching_zombie(kernel: &Kernel, i: usize, pid: isize) -> (r: Option<(usize, usize)>)
    requires
        kernel.wf(),
        kernel.has_current(),
        i as int == kernel.idx_of_pid(kernel.cur_pid()),
        i < kernel.tasks@.len(),
    ensures
        match r {
            Some(kj) => {
                &&& (kj.0 as int) < kernel.cur_task().children@.len()
                &&& matching_zombie(*kernel, pid, kj.0 as int)
                &&& forall|m: int| 0 <= m < kj.0 ==> !matching_zombie(*kernel, pid, m)
                &&& (kj.1 as int) < kernel.tasks@.len()
                &&& kernel.tasks@[kj.1 as int].pid
                    == kernel.cur_task().children@[kj.0 as int]
                &&& kernel.tasks@[kj.1 as int].status == TaskStatus::Zombie
            },
            None => !has_matching_zombie(*kernel, pid),
        },
{
    proof {
        kernel.lemma_current();
        assert(kernel.cur_task() == kernel.tasks@[i as int]);
    }
    let n = kernel.tasks[i].children.len();
    let mut k: usize = 0;
    while k < n
        invariant
            k <= n,
            forall|m: int| 0 <= m < k ==> !matching_zombie(*kernel, pid, m),
        decreases n - k,
    {
        let c = kernel.tasks[i].children[k];
        if pid == -1 || c == pid as usize {
            let j = match crate::task::find_by_pid(&kernel.tasks, c) {
                Some(j) => j,
                None => {
                    proof {
                        assert(kernel.child_entry_ok(i as int, k as int));
                        let w = choose|w: int|
                            0 <= w < kernel.tasks@.len()
                                && (#[trigger] kernel.tasks@[w]).pid
                                    == kernel.tasks@[i as int].children@[k as int]
                                && kernel.tasks@[w].parent
                                    == Some(kernel.tasks@[i as int].pid);
                        assert(false);
                    }
                    0
                },
            };
            proof {
                kernel.lemma_task_at(j as int);
            }
            if kernel.tasks[j].is_zombie() {
                proof {
                    assert(kernel.task_with(c) == kernel.tasks@[j as int]);
                    assert(matching_zombie(*kernel, pid, k as int));
                }
                return Some((k, j));
            }
            proof {
                assert(kernel.task_with(c) == kernel.tasks@[j as int]);
                assert(!matching_zombie(*kernel, pid, k as int));
            }
        } else {
            proof {
                assert(!matching_zombie(*kernel, pid, k as int));
            }
        }
        k += 1;
    }
    proof {
        if has_matching_zombie(*kernel, pid) {
            let m = choose|m: int|
                0 <= m < kernel.cur_task().children@.len()
                    && #[trigger] matching_zombie(*kernel, pid, m);
            assert(false);
        }
    }
    None
}

/// Reaps an exited child.  With no selected child at all the result is -1;
/// with selected children all still unexited it is -2, non-blocking, the
/// caller retries after yielding; otherwise the first selected Zombie in
/// child-list order is removed from the list and from the kernel — the
/// invariant proves it has no other holder, a check that would otherwise be
/// a run-time assertion — its exit code is written through `exit_code_ptr`
/// into the caller's memory, and its pid is returned.
#[verifier::rlimit(100)]
pub fn sys_waitpid(kernel: &mut Kernel, pid: isize, exit_code_ptr: usize) -> (r: isize)
    requires
        old(kernel).wf(),
        old(kernel).has_current(),
        exit_code_ptr + 4 <= usize::MAX,
        has_matching_zombie(*old(kernel), pid)
            ==> old(kernel).cur_task().memory_set.range_writable(exit_code_ptr as int, 4),
    ensures
        final(kernel).wf(),
        final(kernel).has_current(),
        final(kernel).current == old(kernel).current,
        final(kernel).manager == old(kernel).manager,
        final(kernel).next_pid == old(kernel).next_pid,
        final(kernel).programs == old(kernel).programs,
        final(kernel).time_us == old(kernel).time_us,
        final(kernel).cur_task().syscall_times@
            == counted(old(kernel).cur_task().syscall_times@, SYSCALL_WAITPID as int),
        !has_matching_child(*old(kernel), pid) ==> r == -1
            && only_current_task_touched(*old(kernel), *final(kernel))
            && counted_only(
            old(kernel).cur_task(),
            final(kernel).cur_task(),
            SYSCALL_WAITPID as int,
        ),
        has_matching_child(*old(kernel), pid) && !has_matching_zombie(*old(kernel), pid)
            ==> r == -2 && only_current_task_touched(*old(kernel), *final(kernel))
            && counted_only(
            old(kernel).cur_task(),
            final(kernel).cur_task(),
            SYSCALL_WAITPID as int,
        ),
        has_matching_zombie(*old(kernel), pid) ==> exists|k: int|
            {
                &&& 0 <= k < old(kernel).cur_task().children@.len()
                &&& #[trigger] matching_zombie(*old(kernel), pid, k)
                &&& forall|m: int| 0 <= m < k ==> !matching_zombie(*old(kernel), pid, m)
                &&& r == old(kernel).cur_task().children@[k] as isize
                &&& final(kernel).cur_task().children@
                    == old(kernel).cur_task().children@.remove(k)
                &&& !final(kernel).has_pid(old(kernel).cur_task().children@[k])
                &&& crate::mm::write_bytes_post(
                    old(kernel).cur_task().memory_set,
                    final(kernel).cur_task().memory_set,
                    exit_code_ptr as int,
                    crate::wire::i32_bytes(
                        old(kernel).task_with(
                            old(kernel).cur_task().children@[k],
                        ).exit_code,
                    ),
                )
                &&& forall|p: usize|
                    old(kernel).has_pid(p) && p != old(kernel).cur_pid()
                        && p != old(kernel).cur_task().children@[k]
                        ==> #[trigger] final(kernel).task_with(p) == old(kernel).task_with(p)
                &&& forall|p: usize|
                    #![trigger final(kernel).has_pid(p)]
                    #![trigger old(kernel).has_pid(p)]
                    final(kernel).has_pid(p)
                        == (old(kernel).has_pid(p)
                            && p != old(kernel).cur_task().children@[k])
                &&& final(kernel).cur_task() == (TaskControlBlock {
                    children: final(kernel).cur_task().children,
                    syscall_times: final(kernel).cur_task().syscall_times,
                    memory_set: final(kernel).cur_task().memory_set,
                    ..old(kernel).cur_task()
                })
            },
{
    let i = kernel.current_index();
    let ghost pre = *kernel;
    {
        let t = &mut kernel.tasks[i];
        t.record_syscall(SYSCALL_WAITPID);
    }
    proof {
        sys_epilogue(pre, *kernel, i as int);
    }
    let ghost mid = *kernel;
    proof {
        pre.lemma_current();
        assert(mid.cur_task().children@ == pre.cur_task().children@);
        assert forall|k: int| 0 <= k < pre.cur_task().children@.len()
            implies #[trigger] matching_zombie(mid, pid, k) == matching_zombie(pre, pid, k) by {
            let c = pre.cur_task().children@[k];
            assert(pre.child_entry_ok(i as int, k));
            let w = choose|w: int|
                0 <= w < pre.tasks@.len() && (#[trigger] pre.tasks@[w]).pid == c
                    && pre.tasks@[w].parent == Some(pre.tasks@[i as int].pid);
            pre.lemma_task_at(w);
            if c == pre.cur_pid() {
                assert(mid.task_with(c).status == pre.task_with(c).status);
            } else {
                assert(mid.task_with(c) == pre.task_with(c));
            }
        }
        assert(has_matching_zombie(mid, pid) == has_matching_zombie(pre, pid)) by {
            if has_matching_zombie(mid, pid) {
                let k = choose|k: int|
                    0 <= k < mid.cur_task().children@.len()
                        && #[trigger] matching_zombie(mid, pid, k);
                assert(matching_zombie(pre, pid, k));
            }
            if has_matching_zombie(pre, pid) {
                let k = choose|k: int|
                    0 <= k < pre.cur_task().children@.len()
                        && #[trigger] matching_zombie(pre, pid, k);
                assert(matching_zombie(mid, pid, k));
            }
        }
    }
    // is any child selected at all?
    let n = kernel.tasks[i].children.len();
    let mut any = false;
    let mut k2: usize = 0;
    while k2 < n
        invariant
            k2 <= n,
            n == kernel.tasks@[i as int].children@.len(),
            i < kernel.tasks@.len(),
            *kernel == mid,
            mid.cur_task() == mid.tasks@[i as int],
            any == exists|m: int|
                0 <= m < k2 && waitpid_match(pid, #[trigger] mid.cur_task().children@[m]),
        decreases n - k2,
    {
        let c = kernel.tasks[i].children[k2];
        if pid == -1 || c == pid as usize {
            proof {
                assert(waitpid_match(pid, mid.cur_task().children@[k2 as int]));
            }
            any = true;
        }
        k2 += 1;
    }
    if !any {
        proof {
            if has_matching_child(pre, pid) {
                let m = choose|m: int|
                    0 <= m < pre.cur_task().children@.len()
                        && waitpid_match(pid, #[trigger] pre.cur_task().children@[m]);
                assert(false);
            }
            if has_matching_zombie(pre, pid) {
                let m = choose|m: int|
                    0 <= m < pre.cur_task().children@.len()
                        && #[trigger] matching_zombie(pre, pid, m);
                assert(false);
            }
        }
        return -1;
    }
    proof {
        let m = choose|m: int|
            0 <= m < n && waitpid_match(pid, #[trigger] mid.cur_task().children@[m]);
        assert(has_matching_child(pre, pid));
    }
    let found = first_matching_zombie(kernel, i, pid);
    let (k, j) = match found {
        Some(kj) => kj,
        None => {
            proof {
                assert(!has_matching_zombie(pre, pid));
            }
            return -2;
        },
    };
    proof {
        assert(matching_zombie(pre, pid, k as int));
        assert(has_matching_zombie(pre, pid));
    }
    let cpid = kernel.tasks[i].children[k];
    proof {
        // the child is not the parent: one is a Zombie, the other Running
        assert(kernel.tasks@[j as int].status == TaskStatus::Zombie);
        assert(kernel.tasks@[i as int].status == TaskStatus::Running);
        assert(j != i);
    }
    {
        let t = &mut kernel.tasks[i];
        t.children.remove(k);
    }
    proof {
        let pc = mid.tasks@[i as int].children@;
        assert(kernel.tasks@[i as int].children@ == pc.remove(k as int));
        assert forall|m1: int, m2: int|
            0 <= m1 < pc.remove(k as int).len() && 0 <= m2 < pc.remove(k as int).len()
                && m1 != m2
            implies pc.remove(k as int)[m1] != pc.remove(k as int)[m2] by {
            let o1 = if m1 < k { m1 } else { m1 + 1 };
            let o2 = if m2 < k { m2 } else { m2 + 1 };
            assert(pc[o1] != pc[o2]);
        }
        Kernel::lemma_update_entry_transfer_children(mid, *kernel, i as int, k as int);
        Kernel::lemma_keep_status_transfer(mid, *kernel, i as int);
        Kernel::lemma_update_view(mid, *kernel, i as int);
    }
    let ghost mid_b = *kernel;
    let code = kernel.tasks[j].exit_code;
    let serialized = crate::wire::i32_to_bytes(code);
    {
        let t = &mut kernel.tasks[i];
        let ok = t.memory_set.write_buffer(exit_code_ptr, &serialized);
        assert(ok);
    }
    proof {
        sys_epilogue(mid_b, *kernel, i as int);
    }
    let ghost mid_c = *kernel;
    kernel.tasks.remove(j);
    proof {
        let nn = mid_c.tasks@.len() as int;
        assert(mid_c.tasks@[j as int].pid == cpid);
        assert(mid_c.tasks@[j as int].status == TaskStatus::Zombie);
        Kernel::lemma_remove_task_view(mid_c, *kernel, j as int);
        assert forall|m: int| 0 <= m < kernel.tasks@.len()
            implies #[trigger] kernel.tasks@[m]
                == mid_c.tasks@[if m < j { m } else { m + 1 }] by {}
        // table invariants survive the removal
        assert forall|m: int| 0 <= m < kernel.tasks@.len()
            implies (#[trigger] kernel.tasks@[m]).wf()
                && kernel.tasks@[m].pid < kernel.next_pid by {
            let mo = if m < j { m } else { m + 1 };
            assert(mid_c.tasks@[mo].wf() && mid_c.tasks@[mo].pid < mid_c.next_pid);
        }
        assert forall|m1: int, m2: int|
            0 <= m1 < kernel.tasks@.len() && 0 <= m2 < kernel.tasks@.len() && m1 != m2
            implies (#[trigger] kernel.tasks@[m1]).pid != (#[trigger] kernel.tasks@[m2]).pid by {
            let o1 = if m1 < j { m1 } else { m1 + 1 };
            let o2 = if m2 < j { m2 } else { m2 + 1 };
            assert(mid_c.tasks@[o1].pid != mid_c.tasks@[o2].pid);
        }
        // the parent still runs
        let ip = if (i as int) < j { i as int } else { i as int - 1 };
        assert(kernel.tasks@[ip] == mid_c.tasks@[i as int]);
        assert(kernel.running_task_is(mid_c.cur_pid()));
        assert forall|m: int|
            0 <= m < kernel.tasks@.len()
                && (#[trigger] kernel.tasks@[m]).status == TaskStatus::Running
            implies kernel.current == Some(kernel.tasks@[m].pid) by {
            let mo = if m < j { m } else { m + 1 };
            assert(mid_c.tasks@[mo].status == TaskStatus::Running);
        }
        // queue entries name Ready tasks, never the reaped Zombie
        assert forall|q: int| 0 <= q < kernel.manager.ready_queue@.len()
            implies #[trigger] kernel.queue_entry_ok(q) by {
            assert(mid_c.queue_entry_ok(q));
            let w = choose|w: int|
                0 <= w < mid_c.tasks@.len()
                    && (#[trigger] mid_c.tasks@[w]).pid == mid_c.manager.ready_queue@[q]
                    && mid_c.tasks@[w].status == TaskStatus::Ready;
            assert(w != j);
            let wn = if w < j { w } else { w - 1 };
            assert(kernel.tasks@[wn] == mid_c.tasks@[w]);
        }
        // no child list still names the reaped pid: only its parent's did,
        // and that entry is gone — the sole-holder guarantee reaping relies
        // on
        assert forall|ii: int, kk: int|
            0 <= ii < kernel.tasks@.len() && 0 <= kk < kernel.tasks@[ii].children@.len()
            implies #[trigger] kernel.child_entry_ok(ii, kk) by {
            let iio = if ii < j { ii } else { ii + 1 };
            assert(kernel.tasks@[ii] == mid_c.tasks@[iio]);
            assert(mid_c.child_entry_ok(iio, kk));
            let w = choose|w: int|
                0 <= w < mid_c.tasks@.len()
                    && (#[trigger] mid_c.tasks@[w]).pid == mid_c.tasks@[iio].children@[kk]
                    && mid_c.tasks@[w].parent == Some(mid_c.tasks@[iio].pid);
            if w == j {
                // the entry would be the reaped child, so its owner would be
                // the running parent — whose list no longer holds it
                assert(mid_c.tasks@[j as int].parent == Some(mid.tasks@[i as int].pid)) by {
                    assert(mid.child_entry_ok(i as int, k as int));
                    let w0 = choose|w0: int|
                        0 <= w0 < mid.tasks@.len()
                            && (#[trigger] mid.tasks@[w0]).pid
                                == mid.tasks@[i as int].children@[k as int]
                            && mid.tasks@[w0].parent == Some(mid.tasks@[i as int].pid);
                    if w0 != j {
                        assert(mid.tasks@[w0].pid != mid.tasks@[j as int].pid);
                    }
                }
                assert(mid_c.tasks@[iio].pid == mid.tasks@[i as int].pid);
                if iio != i as int {
                    assert(mid_c.tasks@[iio].pid != mid_c.tasks@[i as int].pid);
                }
                // so ii's list is the parent's pruned list, which lost cpid
                let pc = mid.tasks@[i as int].children@;
                let entry = mid_c.tasks@[iio].children@[kk];
                assert(entry == pc.remove(k as int)[kk]);
                let ko = if kk < k { kk } else { kk + 1 };
                assert(entry == pc[ko]);
                assert(entry == cpid);
                assert(pc[ko] != pc[k as int]);
                assert(false);
            }
            let wn = if w < j { w } else { w - 1 };
            assert(kernel.tasks@[wn] == mid_c.tasks@[w]);
        }
        assert forall|m: int|
            0 <= m < kernel.tasks@.len()
                && (#[trigger] kernel.tasks@[m]).first_scheduled_time is Some
            implies kernel.tasks@[m].first_scheduled_time->0 <= kernel.time_us by {
            let mo = if m < j { m } else { m + 1 };
            assert(mid_c.tasks@[mo].first_scheduled_time == kernel.tasks@[m].first_scheduled_time);
        }
        assert(kernel.wf());
        // tie the final state back to the entry state
        assert(kernel.cur_task() == kernel.task_with(pre.cur_pid()));
        assert(kernel.task_with(pre.cur_pid()) == mid_c.task_with(pre.cur_pid()));
        assert(kernel.has_current());
        assert forall|p: usize|
            pre.has_pid(p) && p != pre.cur_pid() && p != cpid
            implies #[trigger] kernel.task_with(p) == pre.task_with(p) by {
            assert(mid.task_with(p) == pre.task_with(p));
            assert(mid_b.task_with(p) == mid.task_with(p));
            assert(mid_c.task_with(p) == mid_b.task_with(p));
            assert(kernel.task_with(p) == mid_c.task_with(p));
        }
        assert(matching_zombie(pre, pid, k as int));
        assert(cpid == pre.cur_task().children@[k as int]);
        assert(pre.task_with(cpid).status == TaskStatus::Zombie);
        assert(pre.task_with(cpid).exit_code == code) by {
            assert(pre.child_entry_ok(i as int, k as int));
            let w0 = choose|w0: int|
                0 <= w0 < pre.tasks@.len() && (#[trigger] pre.tasks@[w0]).pid == cpid
                    && pre.tasks@[w0].parent == Some(pre.tasks@[i as int].pid);
            pre.lemma_task_at(w0);
            assert(pre.tasks@[w0] == mid.tasks@[w0]);
            if w0 != j as int {
                assert(mid.tasks@[w0].pid != mid.tasks@[j as int].pid);
            }
        }
        // assemble the reap summary for the chosen position
        assert forall|m: int| 0 <= m < k implies !matching_zombie(pre, pid, m) by {
            assert(!matching_zombie(mid, pid, m));
        }
        assert(kernel.cur_task().children@ == pre.cur_task().children@.remove(k as int));
        assert(kernel.cur_task().syscall_times@
            == counted(pre.cur_task().syscall_times@, SYSCALL_WAITPID as int));
        assert(crate::mm::write_bytes_post(
            pre.cur_task().memory_set,
            kernel.cur_task().memory_set,
            exit_code_ptr as int,
            crate::wire::i32_bytes(pre.task_with(cpid).exit_code),
        ));
        assert(!kernel.has_pid(cpid));
        assert forall|p: usize|
            #![trigger kernel.has_pid(p)]
            #![trigger pre.has_pid(p)]
            kernel.has_pid(p) == (pre.has_pid(p) && p != cpid) by {
            assert(mid.has_pid(p) == pre.has_pid(p));
            assert(mid_b.has_pid(p) == mid.has_pid(p));
            assert(mid_c.has_pid(p) == mid_b.has_pid(p));
            assert(kernel.has_pid(p) == (mid_c.has_pid(p) && p != cpid));
        }
        assert(kernel.cur_task() == (TaskControlBlock {
            children: kernel.cur_task().children,
            syscall_times: kernel.cur_task().syscall_times,
            memory_set: kernel.cur_task().memory_set,
            ..pre.cur_task()
        }));
    }
    cpid as isize
}

} // verus!
