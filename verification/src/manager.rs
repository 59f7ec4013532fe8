//! The ready-queue scheduler: stride dispatch over the task table.
use vstd::prelude::*;

use crate::config::BIG_STRIDE;
use crate::task::{find_by_pid, TaskControlBlock, TaskStatus};

verus! {

/// `b` more than `a`, wrapping around the top of the 64-bit range.
///
/// Stride is an unbounded counter squeezed into a fixed-width word, so the
/// accumulator wraps rather than saturating.  The scheduler compares raw
/// values (first minimum wins), without wraparound-aware ordering: that is
/// sound while the spread among Ready tasks stays below half the range, and
/// with 64-bit strides and passes of at most `BIG_STRIDE / 2` the wrap is
/// unreachable in any realistic run.
pub open spec fn wrap_add64_spec(a: u64, b: u64) -> u64 {
    if a + b <= u64::MAX {
        (a + b) as u64
    } else {
        (a + b - u64::MAX - 1) as u64
    }
}

/// The 64-bit wrapping sum of `a` and `b`.
pub fn wrap_add64(a: u64, b: u64) -> (r: u64)
    ensures
        r == wrap_add64_spec(a, b),
{
    if b <= u64::MAX - a {
        a + b
    } else {
        b - (u64::MAX - a) - 1
    }
}

/// The task as it stands after one dispatch: its stride advanced by its
/// pass, `BIG_STRIDE / priority`.
pub open spec fn bump_stride(t: TaskControlBlock) -> TaskControlBlock {
    TaskControlBlock { stride: wrap_add64_spec(t.stride, BIG_STRIDE / t.priority), ..t }
}

/// Queue entry `k` names some task of the table.
pub open spec fn entry_exists(rq: Seq<usize>, tasks: Seq<TaskControlBlock>, k: int) -> bool {
    exists|i: int| 0 <= i < tasks.len() && (#[trigger] tasks[i]).pid == rq[k]
}

/// Entry `k` of the queue names task `i`, which is Ready, has the minimum
/// stride among all Ready entries, and is the first entry with that stride.
pub open spec fn fetch_choice(
    rq: Seq<usize>,
    tasks: Seq<TaskControlBlock>,
    k: int,
    i: int,
) -> bool {
    &&& 0 <= k < rq.len()
    &&& 0 <= i < tasks.len()
    &&& rq[k] == tasks[i].pid
    &&& tasks[i].status == TaskStatus::Ready
    &&& forall|m: int, j: int|
        0 <= m < rq.len() && 0 <= j < tasks.len() && (#[trigger] rq[m]) == (#[trigger] tasks[j]).pid
            && tasks[j].status == TaskStatus::Ready
            ==> tasks[i].stride <= tasks[j].stride
    &&& forall|m: int, j: int|
        0 <= m < k && 0 <= j < tasks.len() && (#[trigger] rq[m]) == (#[trigger] tasks[j]).pid
            && tasks[j].status == TaskStatus::Ready
            ==> tasks[i].stride < tasks[j].stride
}

/// The ready queue: the pids of the tasks awaiting dispatch, in insertion
/// order.
pub struct TaskManager {
    pub ready_queue: Vec<usize>,
}

impl TaskManager {
    /// An empty ready queue.
    pub fn new() -> (r: Self)
        ensures
            r.ready_queue@.len() == 0,
    {
        TaskManager { ready_queue: Vec::new() }
    }

    /// Appends a task to the ready queue; the caller is responsible for its
    /// status being Ready already.
    pub fn add(&mut self, pid: usize)
        ensures
            final(self).ready_queue@ == old(self).ready_queue@.push(pid),
    {
        self.ready_queue.push(pid);
    }

    /// Selects the Ready entry with the minimum stride (ties broken by queue
    /// position: the first such entry), removes it from the queue, and
    /// advances its stride by its pass; `None` — with nothing changed — when
    /// the queue holds no Ready entry.
    #[verifier::loop_isolation(false)]
    pub fn fetch(&mut self, tasks: &mut Vec<TaskControlBlock>) -> (r: Option<usize>)
        requires
            forall|k: int| 0 <= k < old(self).ready_queue@.len()
                ==> #[trigger] entry_exists(old(self).ready_queue@, old(tasks)@, k),
            forall|i: int| 0 <= i < old(tasks)@.len() ==> (#[trigger] old(tasks)@[i]).wf(),
            forall|i: int, j: int|
                0 <= i < old(tasks)@.len() && 0 <= j < old(tasks)@.len() && i != j
                    ==> old(tasks)@[i].pid != old(tasks)@[j].pid,
        ensures
            final(tasks)@.len() == old(tasks)@.len(),
            forall|i: int| 0 <= i < old(tasks)@.len() ==> (#[trigger] final(tasks)@[i]).wf(),
            match r {
                None => {
                    &&& *final(self) == *old(self)
                    &&& *final(tasks) == *old(tasks)
                    &&& forall|k: int, j: int|
                        0 <= k < old(self).ready_queue@.len() && 0 <= j < old(tasks)@.len()
                            && (#[trigger] old(self).ready_queue@[k])
                                == (#[trigger] old(tasks)@[j]).pid
                            ==> old(tasks)@[j].status != TaskStatus::Ready
                },
                Some(p) => exists|k: int, i: int|
                    {
                        &&& #[trigger] fetch_choice(old(self).ready_queue@, old(tasks)@, k, i)
                        &&& p == old(self).ready_queue@[k]
                        &&& final(self).ready_queue@ == old(self).ready_queue@.remove(k)
                        &&& final(tasks)@ == old(tasks)@.update(i, bump_stride(old(tasks)@[i]))
                    },
            },
    {
        let n = self.ready_queue.len();
        let mut best: Option<(usize, usize)> = None;
        let mut k: usize = 0;
        while k < n
            invariant
                k <= n,
                match best {
                    None => forall|m: int, j: int|
                        0 <= m < k && 0 <= j < tasks@.len()
                            && (#[trigger] self.ready_queue@[m]) == (#[trigger] tasks@[j]).pid
                            ==> tasks@[j].status != TaskStatus::Ready,
                    Some((bk, bi)) => {
                        &&& bk < k
                        &&& (bi as int) < tasks@.len()
                        &&& self.ready_queue@[bk as int] == tasks@[bi as int].pid
                        &&& tasks@[bi as int].status == TaskStatus::Ready
                        &&& forall|m: int, j: int|
                            0 <= m < k && 0 <= j < tasks@.len()
                                && (#[trigger] self.ready_queue@[m]) == (#[trigger] tasks@[j]).pid
                                && tasks@[j].status == TaskStatus::Ready
                                ==> tasks@[bi as int].stride <= tasks@[j].stride
                        &&& forall|m: int, j: int|
                            0 <= m < bk && 0 <= j < tasks@.len()
                                && (#[trigger] self.ready_queue@[m]) == (#[trigger] tasks@[j]).pid
                                && tasks@[j].status == TaskStatus::Ready
                                ==> tasks@[bi as int].stride < tasks@[j].stride
                    },
                },
            decreases n - k,
        {
            let pid = self.ready_queue[k];
            let i = match find_by_pid(tasks, pid) {
                Some(i) => i,
                None => {
                    proof {
                        assert(entry_exists(self.ready_queue@, tasks@, k as int));
                        let w = choose|w: int|
                            0 <= w < tasks@.len()
                                && (#[trigger] tasks@[w]).pid == self.ready_queue@[k as int];
                        assert(false);
                    }
                    0
                },
            };
            if tasks[i].status == TaskStatus::Ready {
                let take = match best {
                    None => true,
                    Some((_, bi)) => tasks[i].stride < tasks[bi].stride,
                };
                if take {
                    best = Some((k, i));
                }
            }
            proof {
                // the task found for this entry is the only one with its pid
                assert forall|j: int|
                    0 <= j < tasks@.len() && tasks@[j].pid == pid implies j == i as int by {
                    if j != i as int {
                        assert(tasks@[j].pid != tasks@[i as int].pid);
                    }
                }
            }
            k += 1;
        }
        match best {
            None => None,
            Some((bk, bi)) => {
                let pid = self.ready_queue[bk];
                self.ready_queue.remove(bk);
                let pass = BIG_STRIDE / tasks[bi].priority;
                let new_stride = wrap_add64(tasks[bi].stride, pass);
                let ghost pre_tasks = tasks@;
                let t = &mut tasks[bi];
                t.stride = new_stride;
                proof {
                    assert(tasks@ =~= pre_tasks.update(bi as int, bump_stride(pre_tasks[bi as int])));
                    assert(fetch_choice(old(self).ready_queue@, old(tasks)@, bk as int, bi as int));
                }
                Some(pid)
            },
        }
    }
}

} // verus!
