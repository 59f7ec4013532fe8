//! The kernel's process-management state: the task table, the scheduler's
//! ready queue, the running task, the program store the loader resolves
//! names in, and the clock.
//!
//! On the machine this state lives in lock-guarded globals; here it is one
//! explicit value the syscall handlers take `&mut`, which is what the
//! single-core exclusive-access discipline amounts to.
use vstd::prelude::*;

use crate::manager::TaskManager;
use crate::task::{find_by_pid, Program, TaskControlBlock, TaskStatus};

verus! {

/// `a` and `b` agree on everything the scheduler does not touch: identity,
/// tree links, memory, trap context, telemetry and priority.  Status, stride
/// and the first-dispatch time are free.
pub open spec fn sched_equiv(a: TaskControlBlock, b: TaskControlBlock) -> bool {
    &&& a.pid == b.pid
    &&& a.memory_set == b.memory_set
    &&& a.trap_cx == b.trap_cx
    &&& a.parent == b.parent
    &&& a.children@ == b.children@
    &&& a.exit_code == b.exit_code
    &&& a.priority == b.priority
    &&& a.syscall_times@ == b.syscall_times@
}

/// The count table after counting one invocation of syscall `id`.
pub open spec fn counted(times: Seq<u32>, id: int) -> Seq<u32> {
    times.update(id, crate::task::bumped(times[id]))
}

/// `b` is `a` with exactly one invocation of syscall `id` counted and
/// nothing else changed.
pub open spec fn counted_only(a: TaskControlBlock, b: TaskControlBlock, id: int) -> bool {
    &&& b.syscall_times@ == counted(a.syscall_times@, id)
    &&& b == (TaskControlBlock { syscall_times: b.syscall_times, ..a })
}

/// `b` agrees with `a` on everything but the scheduler's fields and the
/// count table, where it holds one invocation of syscall `id` more.
pub open spec fn sched_equiv_counted(a: TaskControlBlock, b: TaskControlBlock, id: int) -> bool {
    &&& b.pid == a.pid
    &&& b.memory_set == a.memory_set
    &&& b.trap_cx == a.trap_cx
    &&& b.parent == a.parent
    &&& b.children@ == a.children@
    &&& b.exit_code == a.exit_code
    &&& b.priority == a.priority
    &&& b.syscall_times@ == counted(a.syscall_times@, id)
}

pub struct Kernel {
    pub tasks: Vec<TaskControlBlock>,
    pub manager: TaskManager,
    /// The pid of the one Running task, while a task runs.
    pub current: Option<usize>,
    /// Next pid to hand out; every live pid is below it.
    pub next_pid: usize,
    /// The program images the external loader would resolve names to.
    pub programs: Vec<Program>,
    /// The external clock's latest reading, in microseconds.
    pub time_us: usize,
}

impl Kernel {
    pub open spec fn tasks_wf(self) -> bool {
        &&& forall|i: int| 0 <= i < self.tasks@.len() ==> (#[trigger] self.tasks@[i]).wf()
        &&& forall|i: int, j: int|
            0 <= i < self.tasks@.len() && 0 <= j < self.tasks@.len() && i != j
                ==> (#[trigger] self.tasks@[i]).pid != (#[trigger] self.tasks@[j]).pid
        &&& forall|i: int| 0 <= i < self.tasks@.len()
                ==> (#[trigger] self.tasks@[i]).pid < self.next_pid
    }

    /// Some live task is Running under identity `p`.
    pub open spec fn running_task_is(self, p: usize) -> bool {
        exists|i: int|
            0 <= i < self.tasks@.len() && (#[trigger] self.tasks@[i]).pid == p
                && self.tasks@[i].status == TaskStatus::Running
    }

    /// The Running task, if any, is the one `current` names; nothing else
    /// runs.
    pub open spec fn current_ok(self) -> bool {
        &&& match self.current {
            Some(p) => self.running_task_is(p),
            None => true,
        }
        &&& forall|i: int|
            0 <= i < self.tasks@.len() && (#[trigger] self.tasks@[i]).status == TaskStatus::Running
                ==> self.current == Some(self.tasks@[i].pid)
    }

    /// Queue entry `k` names a live Ready task.
    pub open spec fn queue_entry_ok(self, k: int) -> bool {
        exists|i: int|
            0 <= i < self.tasks@.len()
                && (#[trigger] self.tasks@[i]).pid == self.manager.ready_queue@[k]
                && self.tasks@[i].status == TaskStatus::Ready
    }

    /// Every queue entry names a live Ready task, once.
    pub open spec fn queue_ok(self) -> bool {
        &&& forall|k: int| 0 <= k < self.manager.ready_queue@.len()
            ==> #[trigger] self.queue_entry_ok(k)
        &&& forall|k1: int, k2: int|
            0 <= k1 < self.manager.ready_queue@.len() && 0 <= k2 < self.manager.ready_queue@.len()
                && k1 != k2
                ==> self.manager.ready_queue@[k1] != self.manager.ready_queue@[k2]
    }

    /// Entry `k` of the child list of the task at index `i` names a live
    /// task whose back-reference points at that parent.
    pub open spec fn child_entry_ok(self, i: int, k: int) -> bool {
        exists|j: int|
            0 <= j < self.tasks@.len()
                && (#[trigger] self.tasks@[j]).pid == self.tasks@[i].children@[k]
                && self.tasks@[j].parent == Some(self.tasks@[i].pid)
    }

    /// Every child list entry names a live task whose back-reference points
    /// at the list's owner.
    pub open spec fn children_ok(self) -> bool {
        forall|i: int, k: int|
            0 <= i < self.tasks@.len() && 0 <= k < self.tasks@[i].children@.len()
                ==> #[trigger] self.child_entry_ok(i, k)
    }

    /// First-dispatch stamps never run ahead of the clock.
    pub open spec fn times_ok(self) -> bool {
        forall|i: int|
            0 <= i < self.tasks@.len() && (#[trigger] self.tasks@[i]).first_scheduled_time is Some
                ==> self.tasks@[i].first_scheduled_time->0 <= self.time_us
    }

    /// Program images are well-formed and names are unique, as a loader
    /// keyed by name has them.
    pub open spec fn programs_ok(self) -> bool {
        &&& forall|i: int| 0 <= i < self.programs@.len() ==> (#[trigger] self.programs@[i]).wf()
        &&& forall|i: int, j: int|
            0 <= i < self.programs@.len() && 0 <= j < self.programs@.len() && i != j
                ==> (#[trigger] self.programs@[i]).name@ != (#[trigger] self.programs@[j]).name@
    }

    pub open spec fn wf(self) -> bool {
        &&& self.tasks_wf()
        &&& self.current_ok()
        &&& self.queue_ok()
        &&& self.children_ok()
        &&& self.times_ok()
        &&& self.programs_ok()
    }

    /// A task with identity `pid` is live.
    pub open spec fn has_pid(self, pid: usize) -> bool {
        exists|i: int| 0 <= i < self.tasks@.len() && (#[trigger] self.tasks@[i]).pid == pid
    }

    /// Index of the live task with identity `pid`.
    pub open spec fn idx_of_pid(self, pid: usize) -> int {
        choose|i: int| 0 <= i < self.tasks@.len() && (#[trigger] self.tasks@[i]).pid == pid
    }

    /// The live task with identity `pid`.
    pub open spec fn task_with(self, pid: usize) -> TaskControlBlock {
        self.tasks@[self.idx_of_pid(pid)]
    }

    pub open spec fn has_current(self) -> bool {
        self.current is Some
    }

    /// The pid of the running task.
    pub open spec fn cur_pid(self) -> usize {
        self.current->0
    }

    /// The running task.
    pub open spec fn cur_task(self) -> TaskControlBlock {
        self.task_with(self.cur_pid())
    }

    /// A program image with this name is registered.
    pub open spec fn has_program(self, name: Seq<u8>) -> bool {
        exists|i: int| 0 <= i < self.programs@.len() && (#[trigger] self.programs@[i]).name@ == name
    }

    /// The registered program image with this name.
    pub open spec fn prog_with(self, name: Seq<u8>) -> Program {
        self.programs@[choose|i: int|
            0 <= i < self.programs@.len() && (#[trigger] self.programs@[i]).name@ == name]
    }

    /// The task at index `i` is found exactly there by its pid.
    pub proof fn lemma_task_at(self, i: int)
        requires
            self.tasks_wf(),
            0 <= i < self.tasks@.len(),
        ensures
            self.has_pid(self.tasks@[i].pid),
            self.idx_of_pid(self.tasks@[i].pid) == i,
            self.task_with(self.tasks@[i].pid) == self.tasks@[i],
    {
        let pid = self.tasks@[i].pid;
        assert(self.has_pid(pid));
        let j = self.idx_of_pid(pid);
        assert(0 <= j < self.tasks@.len() && self.tasks@[j].pid == pid);
        if j != i {
            assert(self.tasks@[i].pid != self.tasks@[j].pid);
        }
    }

    /// The running task is live, Running, and found at `idx_of_pid`.
    pub proof fn lemma_current(self)
        requires
            self.wf(),
            self.has_current(),
        ensures
            self.has_pid(self.cur_pid()),
            self.cur_task().status == TaskStatus::Running,
            self.cur_task().wf(),
            self.tasks@[self.idx_of_pid(self.cur_pid())] == self.cur_task(),
            0 <= self.idx_of_pid(self.cur_pid()) < self.tasks@.len(),
    {
        let p = self.cur_pid();
        let i = choose|i: int|
            0 <= i < self.tasks@.len() && (#[trigger] self.tasks@[i]).pid == p
                && self.tasks@[i].status == TaskStatus::Running;
        self.lemma_task_at(i);
    }

    /// Transfers the queue clause between two kernels whose task table and
    /// queue agree.
    pub proof fn lemma_same_queue(pre: Kernel, post: Kernel)
        requires
            pre.wf(),
            post.tasks@ == pre.tasks@,
            post.manager.ready_queue@ == pre.manager.ready_queue@,
        ensures
            post.queue_ok(),
    {
        assert forall|k: int| 0 <= k < post.manager.ready_queue@.len()
            implies #[trigger] post.queue_entry_ok(k) by {
            assert(pre.queue_entry_ok(k));
            let i = choose|i: int|
                0 <= i < pre.tasks@.len()
                    && (#[trigger] pre.tasks@[i]).pid == pre.manager.ready_queue@[k]
                    && pre.tasks@[i].status == TaskStatus::Ready;
            assert(post.tasks@[i].pid == post.manager.ready_queue@[k]);
        }
    }

    /// Transfers the structural invariant between two kernels whose task
    /// table, queue, current task and pid bound agree, with the clock moved
    /// only forward.
    pub proof fn lemma_same_core(pre: Kernel, post: Kernel)
        requires
            pre.wf(),
            post.tasks@ == pre.tasks@,
            post.manager.ready_queue@ == pre.manager.ready_queue@,
            post.current == pre.current,
            post.next_pid == pre.next_pid,
            pre.time_us <= post.time_us,
            post.programs_ok(),
        ensures
            post.wf(),
    {
        Self::lemma_same_queue(pre, post);
        assert forall|i: int, k: int|
            0 <= i < post.tasks@.len() && 0 <= k < post.tasks@[i].children@.len()
            implies #[trigger] post.child_entry_ok(i, k) by {
            assert(pre.child_entry_ok(i, k));
            let j = choose|j: int|
                0 <= j < pre.tasks@.len()
                    && (#[trigger] pre.tasks@[j]).pid == pre.tasks@[i].children@[k]
                    && pre.tasks@[j].parent == Some(pre.tasks@[i].pid);
            assert(post.tasks@[j].pid == post.tasks@[i].children@[k]);
        }
        match post.current {
            Some(p) => {
                assert(pre.running_task_is(p));
                let i = choose|i: int|
                    0 <= i < pre.tasks@.len() && (#[trigger] pre.tasks@[i]).pid == p
                        && pre.tasks@[i].status == TaskStatus::Running;
                assert(post.tasks@[i].pid == p);
                assert(post.running_task_is(p));
            },
            None => {},
        }
    }

    /// After an in-place change of the task at index `i` that keeps its pid,
    /// every task keeps its identity and every other task its value.
    pub proof fn lemma_update_view(pre: Kernel, post: Kernel, i: int)
        requires
            pre.tasks_wf(),
            0 <= i < pre.tasks@.len(),
            post.tasks@.len() == pre.tasks@.len(),
            forall|j: int|
                0 <= j < pre.tasks@.len() && j != i
                    ==> #[trigger] post.tasks@[j] == pre.tasks@[j],
            post.tasks@[i].pid == pre.tasks@[i].pid,
        ensures
            forall|p: usize| #![trigger post.has_pid(p)] #![trigger pre.has_pid(p)]
                post.has_pid(p) == pre.has_pid(p),
            forall|p: usize|
                pre.has_pid(p) ==> #[trigger] post.idx_of_pid(p) == pre.idx_of_pid(p),
            forall|p: usize|
                pre.has_pid(p) && p != pre.tasks@[i].pid
                    ==> #[trigger] post.task_with(p) == pre.task_with(p),
            post.has_pid(pre.tasks@[i].pid),
            post.task_with(pre.tasks@[i].pid) == post.tasks@[i],
    {
        assert forall|j: int| 0 <= j < post.tasks@.len()
            implies (#[trigger] post.tasks@[j]).pid == pre.tasks@[j].pid by {
            if j != i {
                assert(post.tasks@[j] == pre.tasks@[j]);
            }
        }
        assert forall|p: usize| #![trigger post.has_pid(p)] #![trigger pre.has_pid(p)]
            post.has_pid(p) == pre.has_pid(p) by {
            if post.has_pid(p) {
                let j = choose|j: int|
                    0 <= j < post.tasks@.len() && (#[trigger] post.tasks@[j]).pid == p;
                assert(pre.tasks@[j].pid == p);
                assert(pre.has_pid(p));
            }
            if pre.has_pid(p) {
                let j = choose|j: int|
                    0 <= j < pre.tasks@.len() && (#[trigger] pre.tasks@[j]).pid == p;
                assert(post.tasks@[j].pid == p);
                assert(post.has_pid(p));
            }
        }
        assert forall|p: usize| pre.has_pid(p)
            implies #[trigger] post.idx_of_pid(p) == pre.idx_of_pid(p)
                && (p != pre.tasks@[i].pid ==> post.task_with(p) == pre.task_with(p)) by {
            let j = pre.idx_of_pid(p);
            assert(0 <= j < pre.tasks@.len() && pre.tasks@[j].pid == p);
            pre.lemma_task_at(j);
            let j2 = post.idx_of_pid(p);
            assert(0 <= j2 < post.tasks@.len() && post.tasks@[j2].pid == p);
            if j2 != j {
                assert(pre.tasks@[j2].pid == p);
                assert(pre.tasks@[j2].pid != pre.tasks@[j].pid);
            }
            if p != pre.tasks@[i].pid {
                assert(j != i);
            }
        }
        pre.lemma_task_at(i);
        assert(post.has_pid(pre.tasks@[i].pid));
        assert(post.idx_of_pid(pre.tasks@[i].pid) == i);
    }

    /// Some queue entry names a Ready task.
    pub open spec fn queue_has_ready(self) -> bool {
        exists|k: int|
            0 <= k < self.manager.ready_queue@.len() && #[trigger] self.queue_entry_ok(k)
    }

    /// Transfers the parts of the invariant that one in-place task change —
    /// keeping identity, tree links and the first-dispatch bound — cannot
    /// break.  The queue and current-task clauses depend on the change and
    /// stay with the caller.
    pub proof fn lemma_update_entry_transfer(pre: Kernel, post: Kernel, i: int)
        requires
            pre.wf(),
            0 <= i < pre.tasks@.len(),
            post.tasks@.len() == pre.tasks@.len(),
            forall|j: int|
                0 <= j < pre.tasks@.len() && j != i
                    ==> #[trigger] post.tasks@[j] == pre.tasks@[j],
            post.tasks@[i].pid == pre.tasks@[i].pid,
            post.tasks@[i].parent == pre.tasks@[i].parent,
            post.tasks@[i].children@ == pre.tasks@[i].children@,
            post.tasks@[i].wf(),
            post.next_pid == pre.next_pid,
            post.time_us == pre.time_us,
            post.tasks@[i].first_scheduled_time is Some
                ==> post.tasks@[i].first_scheduled_time->0 <= post.time_us,
            post.programs@ == pre.programs@,
        ensures
            post.tasks_wf(),
            post.children_ok(),
            post.times_ok(),
            post.programs_ok(),
    {
        assert forall|j: int| 0 <= j < post.tasks@.len()
            implies (#[trigger] post.tasks@[j]).wf() && post.tasks@[j].pid < post.next_pid
                && post.tasks@[j].pid == pre.tasks@[j].pid
                && post.tasks@[j].parent == pre.tasks@[j].parent
                && post.tasks@[j].children@ == pre.tasks@[j].children@
                && (post.tasks@[j].first_scheduled_time is Some
                    ==> post.tasks@[j].first_scheduled_time->0 <= post.time_us) by {
            if j != i {
                assert(post.tasks@[j] == pre.tasks@[j]);
            }
        }
        assert forall|ii: int, k: int|
            0 <= ii < post.tasks@.len() && 0 <= k < post.tasks@[ii].children@.len()
            implies #[trigger] post.child_entry_ok(ii, k) by {
            assert(pre.child_entry_ok(ii, k));
            let j = choose|j: int|
                0 <= j < pre.tasks@.len()
                    && (#[trigger] pre.tasks@[j]).pid == pre.tasks@[ii].children@[k]
                    && pre.tasks@[j].parent == Some(pre.tasks@[ii].pid);
            assert(post.tasks@[j].pid == post.tasks@[ii].children@[k]);
            assert(post.tasks@[j].parent == Some(post.tasks@[ii].pid));
        }
    }

    /// Index of the running task in the table.
    pub(crate) fn current_index(&self) -> (r: usize)
        requires
            self.wf(),
            self.has_current(),
        ensures
            r < self.tasks@.len(),
            r as int == self.idx_of_pid(self.cur_pid()),
            self.tasks@[r as int] == self.cur_task(),
            self.tasks@[r as int].pid == self.cur_pid(),
            self.cur_task().status == TaskStatus::Running,
            self.cur_task().wf(),
    {
        proof {
            self.lemma_current();
        }
        let p = match self.current {
            Some(p) => p,
            None => {
                proof {
                    assert(false);
                }
                0
            },
        };
        match find_by_pid(&self.tasks, p) {
            Some(i) => {
                proof {
                    self.lemma_task_at(i as int);
                }
                i
            },
            None => {
                proof {
                    assert(false);
                }
                0
            },
        }
    }

    /// Appends a Ready task to the scheduler's queue.
    pub fn add_task(&mut self, pid: usize)
        requires
            old(self).wf(),
            old(self).has_pid(pid),
            old(self).task_with(pid).status == TaskStatus::Ready,
            forall|k: int| 0 <= k < old(self).manager.ready_queue@.len()
                ==> old(self).manager.ready_queue@[k] != pid,
        ensures
            final(self).wf(),
            final(self).manager.ready_queue@ == old(self).manager.ready_queue@.push(pid),
            final(self).tasks == old(self).tasks,
            final(self).current == old(self).current,
            final(self).next_pid == old(self).next_pid,
            final(self).programs == old(self).programs,
            final(self).time_us == old(self).time_us,
    {
        let ghost pre = *self;
        self.manager.add(pid);
        proof {
            let n = pre.manager.ready_queue@.len() as int;
            assert forall|k: int| 0 <= k < self.manager.ready_queue@.len()
                implies #[trigger] self.queue_entry_ok(k) by {
                if k < n {
                    assert(pre.queue_entry_ok(k));
                    let i = choose|i: int|
                        0 <= i < pre.tasks@.len()
                            && (#[trigger] pre.tasks@[i]).pid == pre.manager.ready_queue@[k]
                            && pre.tasks@[i].status == TaskStatus::Ready;
                    assert(self.tasks@[i].pid == self.manager.ready_queue@[k]);
                } else {
                    let i = pre.idx_of_pid(pid);
                    assert(0 <= i < pre.tasks@.len() && pre.tasks@[i].pid == pid);
                    assert(self.tasks@[i].pid == self.manager.ready_queue@[k]);
                    assert(self.tasks@[i].status == TaskStatus::Ready);
                }
            }
            assert forall|k1: int, k2: int|
                0 <= k1 < self.manager.ready_queue@.len()
                    && 0 <= k2 < self.manager.ready_queue@.len() && k1 != k2
                implies self.manager.ready_queue@[k1] != self.manager.ready_queue@[k2] by {
                if k1 < n && k2 < n {
                    assert(pre.manager.ready_queue@[k1] != pre.manager.ready_queue@[k2]);
                } else if k1 == n {
                    assert(pre.queue_entry_ok(k2));
                } else if k2 == n {
                    assert(pre.queue_entry_ok(k1));
                }
            }
            Self::lemma_update_entry_transfer(pre, *self, 0);
            match self.current {
                Some(cp) => {
                    assert(pre.running_task_is(cp));
                },
                None => {},
            }
        }
    }

    /// Takes the stride-minimal Ready task out of the queue, advancing its
    /// stride; `None` when nothing in the queue is Ready.
    pub fn fetch_task(&mut self) -> (r: Option<usize>)
        requires
            old(self).wf(),
        ensures
            final(self).wf(),
            final(self).current == old(self).current,
            final(self).next_pid == old(self).next_pid,
            final(self).programs == old(self).programs,
            final(self).time_us == old(self).time_us,
            forall|p: usize| #![trigger final(self).has_pid(p)] #![trigger old(self).has_pid(p)]
                final(self).has_pid(p) == old(self).has_pid(p),
            forall|p: usize| old(self).has_pid(p)
                ==> sched_equiv(old(self).task_with(p), #[trigger] final(self).task_with(p)),
            (r is Some) == old(self).queue_has_ready(),
            r is None ==> *final(self) == *old(self),
            r is Some ==> {
                &&& old(self).has_pid(r->0)
                &&& final(self).task_with(r->0).status == TaskStatus::Ready
                &&& exists|k: int, i: int|
                    {
                        &&& #[trigger] crate::manager::fetch_choice(
                            old(self).manager.ready_queue@,
                            old(self).tasks@,
                            k,
                            i,
                        )
                        &&& r->0 == old(self).manager.ready_queue@[k]
                        &&& final(self).manager.ready_queue@
                            == old(self).manager.ready_queue@.remove(k)
                        &&& final(self).tasks@ == old(self).tasks@.update(
                            i,
                            crate::manager::bump_stride(old(self).tasks@[i]),
                        )
                    }
            },
            forall|p: usize|
                old(self).has_pid(p) && (r is Some ==> p != r->0)
                    ==> #[trigger] final(self).task_with(p) == old(self).task_with(p),
            forall|p: usize| old(self).has_pid(p)
                ==> (#[trigger] final(self).task_with(p)).status
                    == old(self).task_with(p).status,
    {
        let ghost pre = *self;
        proof {
            assert forall|k: int| 0 <= k < self.manager.ready_queue@.len()
                implies #[trigger] crate::manager::entry_exists(
                    self.manager.ready_queue@,
                    self.tasks@,
                    k,
                ) by {
                assert(pre.queue_entry_ok(k));
                let i = choose|i: int|
                    0 <= i < pre.tasks@.len()
                        && (#[trigger] pre.tasks@[i]).pid == pre.manager.ready_queue@[k]
                        && pre.tasks@[i].status == TaskStatus::Ready;
                assert(self.tasks@[i].pid == self.manager.ready_queue@[k]);
            }
        }
        let r = self.manager.fetch(&mut self.tasks);
        match r {
            None => {
                proof {
                    if pre.queue_has_ready() {
                        let k = choose|k: int|
                            0 <= k < pre.manager.ready_queue@.len()
                                && #[trigger] pre.queue_entry_ok(k);
                        let i = choose|i: int|
                            0 <= i < pre.tasks@.len()
                                && (#[trigger] pre.tasks@[i]).pid == pre.manager.ready_queue@[k]
                                && pre.tasks@[i].status == TaskStatus::Ready;
                        assert(false);
                    }
                }
                None
            },
            Some(p) => {
                proof {
                    let (k, i) = choose|k: int, i: int|
                        {
                            &&& #[trigger] crate::manager::fetch_choice(
                                pre.manager.ready_queue@,
                                pre.tasks@,
                                k,
                                i,
                            )
                            &&& p == pre.manager.ready_queue@[k]
                            &&& self.manager.ready_queue@ == pre.manager.ready_queue@.remove(k)
                            &&& self.tasks@ == pre.tasks@.update(
                                i,
                                crate::manager::bump_stride(pre.tasks@[i]),
                            )
                        };
                    assert(pre.queue_entry_ok(k));
                    assert(pre.queue_has_ready());
                    Self::lemma_update_entry_transfer(pre, *self, i);
                    Self::lemma_update_view(pre, *self, i);
                    pre.lemma_task_at(i);
                    // current task, if any, is untouched by the stride bump
                    match self.current {
                        Some(cp) => {
                            assert(pre.running_task_is(cp));
                            let ci = choose|ci: int|
                                0 <= ci < pre.tasks@.len()
                                    && (#[trigger] pre.tasks@[ci]).pid == cp
                                    && pre.tasks@[ci].status == TaskStatus::Running;
                            assert(self.tasks@[ci].pid == cp);
                            assert(self.tasks@[ci].status == TaskStatus::Running);
                            assert(self.running_task_is(cp));
                        },
                        None => {},
                    }
                    assert forall|j: int|
                        0 <= j < self.tasks@.len()
                            && (#[trigger] self.tasks@[j]).status == TaskStatus::Running
                        implies self.current == Some(self.tasks@[j].pid) by {
                        assert(pre.tasks@[j].status == TaskStatus::Running);
                    }
                    // remaining queue entries still name live Ready tasks
                    assert forall|m: int| 0 <= m < self.manager.ready_queue@.len()
                        implies #[trigger] self.queue_entry_ok(m) by {
                        let mp = if m < k {
                            m
                        } else {
                            m + 1
                        };
                        assert(pre.queue_entry_ok(mp));
                        let j = choose|j: int|
                            0 <= j < pre.tasks@.len()
                                && (#[trigger] pre.tasks@[j]).pid
                                    == pre.manager.ready_queue@[mp]
                                && pre.tasks@[j].status == TaskStatus::Ready;
                        assert(self.tasks@[j].pid == self.manager.ready_queue@[m]);
                        assert(self.tasks@[j].status == TaskStatus::Ready);
                    }
                    assert forall|k1: int, k2: int|
                        0 <= k1 < self.manager.ready_queue@.len()
                            && 0 <= k2 < self.manager.ready_queue@.len() && k1 != k2
                        implies self.manager.ready_queue@[k1]
                            != self.manager.ready_queue@[k2] by {
                        let m1 = if k1 < k {
                            k1
                        } else {
                            k1 + 1
                        };
                        let m2 = if k2 < k {
                            k2
                        } else {
                            k2 + 1
                        };
                        assert(pre.manager.ready_queue@[m1] != pre.manager.ready_queue@[m2]);
                    }
                    assert forall|q: usize| pre.has_pid(q)
                        implies sched_equiv(pre.task_with(q), #[trigger] self.task_with(q))
                            && self.task_with(q).status == pre.task_with(q).status by {
                        if q != pre.tasks@[i].pid {
                            assert(self.task_with(q) == pre.task_with(q));
                        } else {
                            assert(self.task_with(q) == self.tasks@[i]);
                        }
                    }
                    assert(self.task_with(p).status == TaskStatus::Ready);
                }
                Some(p)
            },
        }
    }

    /// Like `lemma_update_entry_transfer`, for a change that removes entry
    /// `k` from the task's child list.
    pub proof fn lemma_update_entry_transfer_children(pre: Kernel, post: Kernel, i: int, k: int)
        requires
            pre.wf(),
            0 <= i < pre.tasks@.len(),
            post.tasks@.len() == pre.tasks@.len(),
            forall|j: int|
                0 <= j < pre.tasks@.len() && j != i
                    ==> #[trigger] post.tasks@[j] == pre.tasks@[j],
            post.tasks@[i].pid == pre.tasks@[i].pid,
            post.tasks@[i].parent == pre.tasks@[i].parent,
            0 <= k < pre.tasks@[i].children@.len(),
            post.tasks@[i].children@ == pre.tasks@[i].children@.remove(k),
            post.tasks@[i].wf(),
            post.next_pid == pre.next_pid,
            post.time_us == pre.time_us,
            post.tasks@[i].first_scheduled_time is Some
                ==> post.tasks@[i].first_scheduled_time->0 <= post.time_us,
            post.programs@ == pre.programs@,
        ensures
            post.tasks_wf(),
            post.children_ok(),
            post.times_ok(),
            post.programs_ok(),
    {
        assert forall|j: int| 0 <= j < post.tasks@.len()
            implies (#[trigger] post.tasks@[j]).wf() && post.tasks@[j].pid < post.next_pid
                && post.tasks@[j].pid == pre.tasks@[j].pid
                && post.tasks@[j].parent == pre.tasks@[j].parent
                && (post.tasks@[j].first_scheduled_time is Some
                    ==> post.tasks@[j].first_scheduled_time->0 <= post.time_us) by {
            if j != i {
                assert(post.tasks@[j] == pre.tasks@[j]);
            }
        }
        assert forall|ii: int, kk: int|
            0 <= ii < post.tasks@.len() && 0 <= kk < post.tasks@[ii].children@.len()
            implies #[trigger] post.child_entry_ok(ii, kk) by {
            let ko = if ii == i {
                if kk < k {
                    kk
                } else {
                    kk + 1
                }
            } else {
                kk
            };
            assert(post.tasks@[ii].children@[kk] == pre.tasks@[ii].children@[ko]);
            assert(pre.child_entry_ok(ii, ko));
            let w = choose|w: int|
                0 <= w < pre.tasks@.len()
                    && (#[trigger] pre.tasks@[w]).pid == pre.tasks@[ii].children@[ko]
                    && pre.tasks@[w].parent == Some(pre.tasks@[ii].pid);
            assert(post.tasks@[w].pid == post.tasks@[ii].children@[kk]);
            assert(post.tasks@[w].parent == Some(post.tasks@[ii].pid));
        }
    }

    /// Transfers the queue and current-task clauses over an in-place task
    /// change that keeps the task's pid and status, with queue and current
    /// untouched.
    pub proof fn lemma_keep_status_transfer(pre: Kernel, post: Kernel, i: int)
        requires
            pre.wf(),
            0 <= i < pre.tasks@.len(),
            post.tasks@.len() == pre.tasks@.len(),
            forall|j: int|
                0 <= j < pre.tasks@.len() && j != i
                    ==> #[trigger] post.tasks@[j] == pre.tasks@[j],
            post.tasks@[i].pid == pre.tasks@[i].pid,
            post.tasks@[i].status == pre.tasks@[i].status,
            post.manager.ready_queue@ == pre.manager.ready_queue@,
            post.current == pre.current,
        ensures
            post.queue_ok(),
            post.current_ok(),
    {
        assert forall|k: int| 0 <= k < post.manager.ready_queue@.len()
            implies #[trigger] post.queue_entry_ok(k) by {
            assert(pre.queue_entry_ok(k));
            let j = choose|j: int|
                0 <= j < pre.tasks@.len()
                    && (#[trigger] pre.tasks@[j]).pid == pre.manager.ready_queue@[k]
                    && pre.tasks@[j].status == TaskStatus::Ready;
            assert(post.tasks@[j].pid == post.manager.ready_queue@[k]);
            assert(post.tasks@[j].status == TaskStatus::Ready);
        }
        match post.current {
            Some(p) => {
                assert(pre.running_task_is(p));
                let j = choose|j: int|
                    0 <= j < pre.tasks@.len() && (#[trigger] pre.tasks@[j]).pid == p
                        && pre.tasks@[j].status == TaskStatus::Running;
                assert(post.tasks@[j].pid == p);
                assert(post.tasks@[j].status == TaskStatus::Running);
                assert(post.running_task_is(p));
            },
            None => {},
        }
        assert forall|j: int|
            0 <= j < post.tasks@.len()
                && (#[trigger] post.tasks@[j]).status == TaskStatus::Running
            implies post.current == Some(post.tasks@[j].pid) by {
            assert(pre.tasks@[j].status == TaskStatus::Running);
        }
    }

    /// Runs the next task: takes the stride-minimal Ready task from the
    /// queue, marks it Running, stamps its first dispatch if this is one,
    /// and makes it current.  With nothing Ready the kernel stays idle.
    pub fn dispatch(&mut self)
        requires
            old(self).wf(),
            !old(self).has_current(),
        ensures
            final(self).wf(),
            final(self).next_pid == old(self).next_pid,
            final(self).programs == old(self).programs,
            final(self).time_us == old(self).time_us,
            forall|p: usize| #![trigger final(self).has_pid(p)] #![trigger old(self).has_pid(p)]
                final(self).has_pid(p) == old(self).has_pid(p),
            forall|p: usize| old(self).has_pid(p)
                ==> sched_equiv(old(self).task_with(p), #[trigger] final(self).task_with(p)),
            final(self).has_current() == old(self).queue_has_ready(),
            !final(self).has_current() ==> *final(self) == *old(self),
            final(self).has_current() ==> old(self).has_pid(final(self).cur_pid())
                && final(self).cur_task().status == TaskStatus::Running
                && old(self).task_with(final(self).cur_pid()).status == TaskStatus::Ready,
            forall|p: usize|
                old(self).has_pid(p) && final(self).current != Some(p)
                    ==> #[trigger] final(self).task_with(p) == old(self).task_with(p),
            final(self).has_current() ==> exists|k: int, i: int|
                {
                    &&& #[trigger] crate::manager::fetch_choice(
                        old(self).manager.ready_queue@,
                        old(self).tasks@,
                        k,
                        i,
                    )
                    &&& final(self).current == Some(old(self).manager.ready_queue@[k])
                    &&& final(self).manager.ready_queue@
                        == old(self).manager.ready_queue@.remove(k)
                    &&& final(self).cur_task().stride == crate::manager::wrap_add64_spec(
                        old(self).tasks@[i].stride,
                        crate::config::BIG_STRIDE / old(self).tasks@[i].priority,
                    )
                    &&& final(self).cur_task().first_scheduled_time == (
                    if old(self).tasks@[i].first_scheduled_time is Some {
                        old(self).tasks@[i].first_scheduled_time
                    } else {
                        Some(old(self).time_us)
                    })
                },
    {
        let ghost pre = *self;
        let r = self.fetch_task();
        match r {
            None => {},
            Some(p) => {
                let ghost mid = *self;
                let i = match find_by_pid(&self.tasks, p) {
                    Some(i) => i,
                    None => {
                        proof {
                            assert(false);
                        }
                        0
                    },
                };
                proof {
                    mid.lemma_task_at(i as int);
                }
                let now = self.time_us;
                let t = &mut self.tasks[i];
                t.status = TaskStatus::Running;
                if t.first_scheduled_time.is_none() {
                    t.first_scheduled_time = Some(now);
                }
                self.current = Some(p);
                proof {
                    Self::lemma_update_entry_transfer(mid, *self, i as int);
                    Self::lemma_update_view(mid, *self, i as int);
                    // p is the one Running task
                    assert(self.tasks@[i as int].pid == p);
                    assert(self.tasks@[i as int].status == TaskStatus::Running);
                    assert(self.running_task_is(p));
                    assert forall|j: int|
                        0 <= j < self.tasks@.len()
                            && (#[trigger] self.tasks@[j]).status == TaskStatus::Running
                        implies self.current == Some(self.tasks@[j].pid) by {
                        if j != i as int {
                            assert(self.tasks@[j] == mid.tasks@[j]);
                            assert(mid.current == Some(mid.tasks@[j].pid));
                        }
                    }
                    // p left the queue entirely, so the queue clause carries
                    let k0 = choose|k0: int|
                        0 <= k0 < pre.manager.ready_queue@.len()
                            && (#[trigger] pre.manager.ready_queue@[k0]) == p
                            && mid.manager.ready_queue@ == pre.manager.ready_queue@.remove(k0);
                    assert forall|m: int| 0 <= m < self.manager.ready_queue@.len()
                        implies #[trigger] self.queue_entry_ok(m) by {
                        assert(mid.queue_entry_ok(m));
                        let j = choose|j: int|
                            0 <= j < mid.tasks@.len()
                                && (#[trigger] mid.tasks@[j]).pid == mid.manager.ready_queue@[m]
                                && mid.tasks@[j].status == TaskStatus::Ready;
                        let morig = if m < k0 {
                            m
                        } else {
                            m + 1
                        };
                        assert(mid.manager.ready_queue@[m] == pre.manager.ready_queue@[morig]);
                        assert(pre.manager.ready_queue@[morig] != p);
                        assert(j != i as int);
                        assert(self.tasks@[j] == mid.tasks@[j]);
                        assert(self.tasks@[j].pid == self.manager.ready_queue@[m]);
                    }
                    // the two-step change is scheduler-only
                    assert forall|q: usize| pre.has_pid(q)
                        implies sched_equiv(pre.task_with(q), #[trigger] self.task_with(q)) by {
                        assert(sched_equiv(pre.task_with(q), mid.task_with(q)));
                        if q != p {
                            assert(self.task_with(q) == mid.task_with(q));
                        } else {
                            assert(self.task_with(q) == self.tasks@[i as int]);
                            assert(mid.task_with(q) == mid.tasks@[i as int]);
                        }
                    }
                    assert(self.cur_task() == self.tasks@[i as int]);
                    assert(pre.task_with(p).status == TaskStatus::Ready);
                    assert forall|q: usize| pre.has_pid(q) && self.current != Some(q)
                        implies #[trigger] self.task_with(q) == pre.task_with(q) by {
                        assert(q != p);
                        assert(mid.task_with(q) == pre.task_with(q));
                        assert(self.task_with(q) == mid.task_with(q));
                    }
                    // surface the scheduler's choice in terms of the entry state
                    let (kc, ic) = choose|kc: int, ic: int|
                        {
                            &&& #[trigger] crate::manager::fetch_choice(
                                pre.manager.ready_queue@,
                                pre.tasks@,
                                kc,
                                ic,
                            )
                            &&& p == pre.manager.ready_queue@[kc]
                            &&& mid.manager.ready_queue@
                                == pre.manager.ready_queue@.remove(kc)
                            &&& mid.tasks@ == pre.tasks@.update(
                                ic,
                                crate::manager::bump_stride(pre.tasks@[ic]),
                            )
                        };
                    assert(mid.tasks@[ic].pid == p);
                    assert(i as int == ic) by {
                        if i as int != ic {
                            assert(mid.tasks@[i as int].pid != mid.tasks@[ic].pid);
                        }
                    }
                    assert(self.cur_task().stride
                        == crate::manager::wrap_add64_spec(
                        pre.tasks@[ic].stride,
                        crate::config::BIG_STRIDE / pre.tasks@[ic].priority,
                    ));
                    assert(self.cur_task().first_scheduled_time == (
                    if pre.tasks@[ic].first_scheduled_time is Some {
                        pre.tasks@[ic].first_scheduled_time
                    } else {
                        Some(pre.time_us)
                    }));
                }
            },
        }
    }

    /// After appending a task with a fresh pid, every existing task keeps
    /// its place and value.
    pub proof fn lemma_push_view(pre: Kernel, post: Kernel, t: TaskControlBlock)
        requires
            forall|i: int, j: int|
                0 <= i < pre.tasks@.len() && 0 <= j < pre.tasks@.len() && i != j
                    ==> (#[trigger] pre.tasks@[i]).pid != (#[trigger] pre.tasks@[j]).pid,
            !pre.has_pid(t.pid),
            post.tasks@ == pre.tasks@.push(t),
        ensures
            forall|p: usize| #![trigger post.has_pid(p)] #![trigger pre.has_pid(p)]
                post.has_pid(p) == (pre.has_pid(p) || p == t.pid),
            forall|p: usize|
                pre.has_pid(p)
                    ==> #[trigger] post.idx_of_pid(p) == pre.idx_of_pid(p)
                        && post.task_with(p) == pre.task_with(p),
            post.has_pid(t.pid),
            post.idx_of_pid(t.pid) == pre.tasks@.len(),
            post.task_with(t.pid) == t,
    {
        let n = pre.tasks@.len() as int;
        assert forall|i: int| 0 <= i < n
            implies (#[trigger] pre.tasks@[i]).pid != t.pid by {
            if pre.tasks@[i].pid == t.pid {
                assert(pre.has_pid(t.pid));
            }
        }
        assert forall|p: usize| #![trigger post.has_pid(p)] #![trigger pre.has_pid(p)]
            post.has_pid(p) == (pre.has_pid(p) || p == t.pid) by {
            if post.has_pid(p) {
                let i = choose|i: int|
                    0 <= i < post.tasks@.len() && (#[trigger] post.tasks@[i]).pid == p;
                if i < n {
                    assert(pre.tasks@[i].pid == p);
                    assert(pre.has_pid(p));
                }
            }
            if pre.has_pid(p) {
                let i = choose|i: int|
                    0 <= i < pre.tasks@.len() && (#[trigger] pre.tasks@[i]).pid == p;
                assert(post.tasks@[i].pid == p);
                assert(post.has_pid(p));
            }
            if p == t.pid {
                assert(post.tasks@[n].pid == p);
                assert(post.has_pid(p));
            }
        }
        assert forall|p: usize| pre.has_pid(p)
            implies #[trigger] post.idx_of_pid(p) == pre.idx_of_pid(p)
                && post.task_with(p) == pre.task_with(p) by {
            let i = pre.idx_of_pid(p);
            assert(0 <= i < n && pre.tasks@[i].pid == p);
            let i2 = post.idx_of_pid(p);
            assert(0 <= i2 < post.tasks@.len() && post.tasks@[i2].pid == p);
            if i2 == n {
                assert(t.pid == p);
                assert(pre.has_pid(t.pid));
                assert(false);
            }
            if i2 != i {
                assert(pre.tasks@[i2].pid != pre.tasks@[i].pid);
            }
        }
        assert(post.tasks@[n].pid == t.pid);
        let i2 = post.idx_of_pid(t.pid);
        assert(0 <= i2 < post.tasks@.len() && post.tasks@[i2].pid == t.pid);
        if i2 < n {
            assert(pre.tasks@[i2].pid == t.pid);
            assert(pre.has_pid(t.pid));
        }
    }

    /// After removing the task at index `j`, its pid is gone and every
    /// other task keeps its value.
    pub proof fn lemma_remove_task_view(pre: Kernel, post: Kernel, j: int)
        requires
            forall|i1: int, i2: int|
                0 <= i1 < pre.tasks@.len() && 0 <= i2 < pre.tasks@.len() && i1 != i2
                    ==> (#[trigger] pre.tasks@[i1]).pid != (#[trigger] pre.tasks@[i2]).pid,
            0 <= j < pre.tasks@.len(),
            post.tasks@ == pre.tasks@.remove(j),
        ensures
            forall|p: usize| #![trigger post.has_pid(p)] #![trigger pre.has_pid(p)]
                post.has_pid(p) == (pre.has_pid(p) && p != pre.tasks@[j].pid),
            forall|p: usize|
                pre.has_pid(p) && p != pre.tasks@[j].pid
                    ==> #[trigger] post.task_with(p) == pre.task_with(p),
    {
        let n = pre.tasks@.len() as int;
        let rp = pre.tasks@[j].pid;
        assert forall|m: int| 0 <= m < n - 1 implies #[trigger] post.tasks@[m]
            == pre.tasks@[if m < j { m } else { m + 1 }] by {}
        assert forall|p: usize| #![trigger post.has_pid(p)] #![trigger pre.has_pid(p)]
            post.has_pid(p) == (pre.has_pid(p) && p != rp) by {
            if post.has_pid(p) {
                let m = choose|m: int|
                    0 <= m < post.tasks@.len() && (#[trigger] post.tasks@[m]).pid == p;
                let mo = if m < j { m } else { m + 1 };
                assert(pre.tasks@[mo].pid == p);
                assert(pre.has_pid(p));
                if p == rp {
                    assert(pre.tasks@[mo].pid != pre.tasks@[j].pid);
                }
            }
            if pre.has_pid(p) && p != rp {
                let m = choose|m: int|
                    0 <= m < pre.tasks@.len() && (#[trigger] pre.tasks@[m]).pid == p;
                assert(m != j);
                let mn = if m < j { m } else { m - 1 };
                assert(post.tasks@[mn].pid == p);
                assert(post.has_pid(p));
            }
        }
        assert forall|p: usize| pre.has_pid(p) && p != rp
            implies #[trigger] post.task_with(p) == pre.task_with(p) by {
            let m2 = post.idx_of_pid(p);
            assert(0 <= m2 < post.tasks@.len() && post.tasks@[m2].pid == p);
            let mo = if m2 < j { m2 } else { m2 + 1 };
            assert(pre.tasks@[mo].pid == p);
            let m = pre.idx_of_pid(p);
            assert(0 <= m < pre.tasks@.len() && pre.tasks@[m].pid == p);
            if m != mo {
                assert(pre.tasks@[m].pid != pre.tasks@[mo].pid);
            }
        }
    }

    /// The program at index `i` is found exactly there by its name.
    pub proof fn lemma_prog_at(self, i: int)
        requires
            self.programs_ok(),
            0 <= i < self.programs@.len(),
        ensures
            self.has_program(self.programs@[i].name@),
            self.prog_with(self.programs@[i].name@) == self.programs@[i],
    {
        let nm = self.programs@[i].name@;
        assert(self.has_program(nm));
        let j = choose|j: int|
            0 <= j < self.programs@.len() && (#[trigger] self.programs@[j]).name@ == nm;
        if j != i {
            assert(self.programs@[i].name@ != self.programs@[j].name@);
        }
    }

    /// Index of the registered program with this name, if any.
    #[verifier::loop_isolation(false)]
    pub(crate) fn find_program(&self, name: &Vec<u8>) -> (r: Option<usize>)
        requires
            self.programs_ok(),
        ensures
            match r {
                Some(i) => i < self.programs@.len() && self.programs@[i as int].name@ == name@
                    && self.has_program(name@)
                    && self.prog_with(name@) == self.programs@[i as int],
                None => !self.has_program(name@),
            },
    {
        let n = self.programs.len();
        for i in 0..n
            invariant
                n == self.programs@.len(),
                forall|j: int| 0 <= j < i ==> (#[trigger] self.programs@[j]).name@ != name@,
        {
            if crate::task::bytes_eq(&self.programs[i].name, name) {
                proof {
                    self.lemma_prog_at(i as int);
                }
                return Some(i);
            }
        }
        None
    }

    /// Creates the root task of a boot: a fresh task loaded from the named
    /// program, with no parent, default priority and a zeroed count table,
    /// Ready and enqueued.  The caller dispatches it.  `None` when no
    /// program of that name is registered.
    pub fn spawn_root(&mut self, name: &Vec<u8>) -> (r: Option<usize>)
        requires
            old(self).wf(),
            old(self).next_pid < usize::MAX,
        ensures
            final(self).wf(),
            (r is Some) == old(self).has_program(name@),
            r is None ==> *final(self) == *old(self),
            r is Some ==> {
                let new_pid = old(self).next_pid;
                let child = final(self).task_with(new_pid);
                &&& r == Some(new_pid)
                &&& final(self).next_pid == old(self).next_pid + 1
                &&& final(self).manager.ready_queue@
                    == old(self).manager.ready_queue@.push(new_pid)
                &&& forall|p: usize|
                    #![trigger final(self).has_pid(p)]
                    #![trigger old(self).has_pid(p)]
                    final(self).has_pid(p) == (old(self).has_pid(p) || p == new_pid)
                &&& child.pid == new_pid
                &&& child.status == TaskStatus::Ready
                &&& child.trap_cx.a0 == 0
                &&& child.parent is None
                &&& child.children@.len() == 0
                &&& child.exit_code == 0
                &&& child.stride == 0
                &&& child.priority == crate::config::DEFAULT_PRIORITY
                &&& child.syscall_times@.len() == crate::config::MAX_SYSCALL_NUM
                &&& forall|j: int|
                    0 <= j < crate::config::MAX_SYSCALL_NUM ==> child.syscall_times@[j] == 0u32
                &&& child.first_scheduled_time is None
                &&& crate::mm::same_view(old(self).prog_with(name@).image, child.memory_set)
                &&& forall|p: usize|
                    old(self).has_pid(p)
                        ==> #[trigger] final(self).task_with(p) == old(self).task_with(p)
                &&& final(self).current == old(self).current
                &&& final(self).programs == old(self).programs
                &&& final(self).time_us == old(self).time_us
            },
    {
        let pi = match self.find_program(name) {
            Some(pi) => pi,
            None => {
                return None;
            },
        };
        let new_pid = self.next_pid;
        let child_space = self.programs[pi].image.duplicate();
        let ghost pre = *self;
        proof {
            if pre.has_pid(new_pid) {
                let w = pre.idx_of_pid(new_pid);
                assert(0 <= w < pre.tasks@.len() && pre.tasks@[w].pid == new_pid);
            }
        }
        self.next_pid = new_pid + 1;
        let child = TaskControlBlock {
            pid: new_pid,
            status: TaskStatus::Ready,
            memory_set: child_space,
            trap_cx: crate::task::TrapContext { a0: 0 },
            parent: None,
            children: Vec::new(),
            exit_code: 0,
            stride: 0,
            priority: crate::config::DEFAULT_PRIORITY,
            syscall_times: crate::task::zero_counts(),
            first_scheduled_time: None,
        };
        self.tasks.push(child);
        proof {
            let n = pre.tasks@.len() as int;
            Self::lemma_push_view(pre, *self, child);
            assert(self.tasks@[n].wf());
            assert forall|i1: int, i2: int|
                0 <= i1 < self.tasks@.len() && 0 <= i2 < self.tasks@.len() && i1 != i2
                implies (#[trigger] self.tasks@[i1]).pid != (#[trigger] self.tasks@[i2]).pid by {
                if i1 < n && i2 < n {
                    assert(pre.tasks@[i1].pid != pre.tasks@[i2].pid);
                } else if i1 == n && i2 < n {
                    assert(pre.tasks@[i2].pid < pre.next_pid);
                } else if i2 == n && i1 < n {
                    assert(pre.tasks@[i1].pid < pre.next_pid);
                }
            }
            assert forall|j: int| 0 <= j < self.tasks@.len()
                implies (#[trigger] self.tasks@[j]).wf()
                    && self.tasks@[j].pid < self.next_pid by {
                if j < n {
                    assert(self.tasks@[j] == pre.tasks@[j]);
                }
            }
            assert(self.tasks_wf());
            match self.current {
                Some(cp) => {
                    assert(pre.running_task_is(cp));
                    let w = choose|w: int|
                        0 <= w < pre.tasks@.len() && (#[trigger] pre.tasks@[w]).pid == cp
                            && pre.tasks@[w].status == TaskStatus::Running;
                    assert(self.tasks@[w].pid == cp);
                    assert(self.running_task_is(cp));
                },
                None => {},
            }
            assert forall|j: int|
                0 <= j < self.tasks@.len()
                    && (#[trigger] self.tasks@[j]).status == TaskStatus::Running
                implies self.current == Some(self.tasks@[j].pid) by {
                if j < n {
                    assert(pre.tasks@[j].status == TaskStatus::Running);
                }
            }
            assert forall|k: int| 0 <= k < self.manager.ready_queue@.len()
                implies #[trigger] self.queue_entry_ok(k) by {
                assert(pre.queue_entry_ok(k));
                let w = choose|w: int|
                    0 <= w < pre.tasks@.len()
                        && (#[trigger] pre.tasks@[w]).pid == pre.manager.ready_queue@[k]
                        && pre.tasks@[w].status == TaskStatus::Ready;
                assert(self.tasks@[w].pid == self.manager.ready_queue@[k]);
            }
            assert forall|ii: int, k: int|
                0 <= ii < self.tasks@.len() && 0 <= k < self.tasks@[ii].children@.len()
                implies #[trigger] self.child_entry_ok(ii, k) by {
                if ii == n {
                    assert(self.tasks@[ii].children@.len() == 0);
                } else {
                    assert(pre.child_entry_ok(ii, k));
                    let w = choose|w: int|
                        0 <= w < pre.tasks@.len()
                            && (#[trigger] pre.tasks@[w]).pid == pre.tasks@[ii].children@[k]
                            && pre.tasks@[w].parent == Some(pre.tasks@[ii].pid);
                    assert(self.tasks@[w].pid == self.tasks@[ii].children@[k]);
                    assert(self.tasks@[w].parent == Some(self.tasks@[ii].pid));
                }
            }
            assert forall|j: int|
                0 <= j < self.tasks@.len()
                    && (#[trigger] self.tasks@[j]).first_scheduled_time is Some
                implies self.tasks@[j].first_scheduled_time->0 <= self.time_us by {
                if j < n {
                    assert(self.tasks@[j] == pre.tasks@[j]);
                }
            }
            assert(self.wf());
            assert forall|k: int| 0 <= k < self.manager.ready_queue@.len()
                implies self.manager.ready_queue@[k] != new_pid by {
                assert(pre.queue_entry_ok(k));
                let w = choose|w: int|
                    0 <= w < pre.tasks@.len()
                        && (#[trigger] pre.tasks@[w]).pid == pre.manager.ready_queue@[k]
                        && pre.tasks@[w].status == TaskStatus::Ready;
                assert(pre.tasks@[w].pid < pre.next_pid);
            }
            assert(self.task_with(new_pid) == child);
        }
        self.add_task(new_pid);
        proof {
            assert(self.task_with(new_pid) == child);
        }
        Some(new_pid)
    }

    /// An empty kernel: no tasks, nothing queued, nothing running, the clock
    /// at zero.
    pub fn new() -> (r: Kernel)
        ensures
            r.wf(),
            r.tasks@.len() == 0,
            r.manager.ready_queue@.len() == 0,
            r.current is None,
            r.next_pid == 0,
            r.programs@.len() == 0,
            r.time_us == 0,
    {
        Kernel {
            tasks: Vec::new(),
            manager: TaskManager::new(),
            current: None,
            next_pid: 0,
            programs: Vec::new(),
            time_us: 0,
        }
    }

    /// Registers a program image under a name, as the external loader's
    /// store would hold it; refused when the name is taken.
    #[verifier::loop_isolation(false)]
    pub fn register_program(&mut self, name: Vec<u8>, image: crate::mm::AddressSpace) -> (r: bool)
        requires
            old(self).wf(),
            image.wf(),
        ensures
            final(self).wf(),
            r == !old(self).has_program(name@),
            !r ==> *final(self) == *old(self),
            r ==> final(self).programs@
                == old(self).programs@.push(Program { name, image }),
            r ==> final(self).has_program(name@),
            final(self).tasks == old(self).tasks,
            final(self).manager == old(self).manager,
            final(self).current == old(self).current,
            final(self).next_pid == old(self).next_pid,
            final(self).time_us == old(self).time_us,
    {
        let n = self.programs.len();
        for i in 0..n
            invariant
                n == self.programs@.len(),
                *self == *old(self),
                forall|j: int| 0 <= j < i ==> (#[trigger] self.programs@[j]).name@ != name@,
        {
            if crate::task::bytes_eq(&self.programs[i].name, &name) {
                assert(self.has_program(name@));
                return false;
            }
        }
        assert(!self.has_program(name@));
        let ghost pre = *self;
        self.programs.push(Program { name, image });
        proof {
            let n2 = pre.programs@.len() as int;
            assert forall|i: int| 0 <= i < self.programs@.len()
                implies (#[trigger] self.programs@[i]).wf() by {
                if i < n2 {
                    assert(self.programs@[i] == pre.programs@[i]);
                }
            }
            assert forall|i: int, j: int|
                0 <= i < self.programs@.len() && 0 <= j < self.programs@.len() && i != j
                implies (#[trigger] self.programs@[i]).name@
                    != (#[trigger] self.programs@[j]).name@ by {
                if i < n2 && j < n2 {
                    assert(pre.programs@[i].name@ != pre.programs@[j].name@);
                }
            }
            Self::lemma_same_core(pre, *self);
            assert(self.programs@[n2].name@ == name@);
        }
        true
    }

    /// Advances the clock, as the external timer does between traps.
    pub fn advance_time(&mut self, delta_us: usize)
        requires
            old(self).wf(),
            old(self).time_us + delta_us <= usize::MAX,
        ensures
            final(self).wf(),
            *final(self) == (Kernel { time_us: final(self).time_us, ..*old(self) }),
            final(self).time_us == old(self).time_us + delta_us,
    {
        let ghost pre = *self;
        self.time_us = self.time_us + delta_us;
        proof {
            Self::lemma_same_core(pre, *self);
        }
    }
}

} // verus!
