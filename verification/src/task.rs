//! Per-process state: the task control block, its saved trap context, and
//! the program images the loader resolves names against.
use vstd::prelude::*;

use crate::config::{MAX_SYSCALL_NUM, MIN_PRIORITY};
use crate::mm::AddressSpace;

verus! {

/// Lifecycle state of a task: created Ready, exactly one Running at a time,
/// Zombie from exit until reaped.
#[derive(Clone, Copy, PartialEq, Eq, Structural, Debug)]
pub enum TaskStatus {
    Ready,
    Running,
    Zombie,
}

/// The saved register state a task is resumed with.  Only the return-value
/// slot matters to the process-management logic: the syscall dispatcher
/// writes each call's result there, and fork patches the child's slot to
/// zero before the child ever runs.
pub struct TrapContext {
    pub a0: usize,
}

/// One process: identity, lifecycle status, its exclusively owned address
/// space and trap context, tree links, scheduling accounting and syscall
/// telemetry.
pub struct TaskControlBlock {
    pub pid: usize,
    pub status: TaskStatus,
    pub memory_set: AddressSpace,
    pub trap_cx: TrapContext,
    /// Non-owning back-reference: the parent's pid, which may no longer name
    /// a live task once the parent has been reaped.
    pub parent: Option<usize>,
    /// Owned, insertion-ordered list of the children's pids; a child leaves
    /// it exactly when waitpid reaps it.
    pub children: Vec<usize>,
    pub exit_code: i32,
    pub stride: u64,
    pub priority: u64,
    pub syscall_times: Vec<u32>,
    /// Clock reading (microseconds) of the first dispatch; set at most once.
    pub first_scheduled_time: Option<usize>,
}

/// A syscall counter one higher, held at the top of its range rather than
/// wrapping.
pub open spec fn bumped(c: u32) -> u32 {
    if c < u32::MAX {
        (c + 1) as u32
    } else {
        c
    }
}

impl TaskControlBlock {
    pub open spec fn wf(self) -> bool {
        &&& self.memory_set.wf()
        &&& self.priority >= MIN_PRIORITY
        &&& self.syscall_times@.len() == MAX_SYSCALL_NUM
        &&& forall|k1: int, k2: int|
            0 <= k1 < self.children@.len() && 0 <= k2 < self.children@.len() && k1 != k2
                ==> self.children@[k1] != self.children@[k2]
    }

    pub fn getpid(&self) -> (r: usize)
        ensures
            r == self.pid,
    {
        self.pid
    }

    pub fn is_zombie(&self) -> (r: bool)
        ensures
            r == (self.status == TaskStatus::Zombie),
    {
        self.status == TaskStatus::Zombie
    }

    /// Bumps the counter for syscall `id`.
    pub fn record_syscall(&mut self, id: usize)
        requires
            id < old(self).syscall_times@.len(),
        ensures
            final(self).syscall_times@
                == old(self).syscall_times@.update(id as int, bumped(old(self).syscall_times@[id as int])),
            *final(self) == (TaskControlBlock {
                syscall_times: final(self).syscall_times,
                ..*old(self)
            }),
    {
        let c = self.syscall_times[id];
        let c2 = if c < u32::MAX {
            c + 1
        } else {
            c
        };
        self.syscall_times.set(id, c2);
    }

    /// Moves the program break by `delta` bytes, returning the previous
    /// break, or `None` when the heap cannot be adjusted so.
    pub fn change_program_brk(&mut self, delta: i32) -> (r: Option<usize>)
        requires
            old(self).wf(),
        ensures
            final(self).wf(),
            (r is Some) == crate::mm::sbrk_accepts(old(self).memory_set, delta),
            r is Some ==> r == Some(old(self).memory_set.program_break)
                && final(self).memory_set.program_break
                    == (old(self).memory_set.program_break + delta as int) as usize,
            r is None ==> *final(self) == *old(self),
            final(self).memory_set.pages == old(self).memory_set.pages,
            final(self).memory_set.heap_bottom == old(self).memory_set.heap_bottom,
            *final(self) == (TaskControlBlock { memory_set: final(self).memory_set, ..*old(self) }),
    {
        self.memory_set.change_program_brk(delta)
    }
}

/// Index of the task with identity `pid` in a task table.
pub fn find_by_pid(tasks: &Vec<TaskControlBlock>, pid: usize) -> (r: Option<usize>)
    ensures
        match r {
            Some(i) => i < tasks@.len() && tasks@[i as int].pid == pid,
            None => forall|i: int| 0 <= i < tasks@.len() ==> tasks@[i].pid != pid,
        },
{
    let n = tasks.len();
    for i in 0..n
        invariant
            n == tasks@.len(),
            forall|j: int| 0 <= j < i ==> tasks@[j].pid != pid,
    {
        if tasks[i].pid == pid {
            return Some(i);
        }
    }
    None
}

/// A fresh, all-zero syscall-count table.
pub fn zero_counts() -> (r: Vec<u32>)
    ensures
        r@.len() == MAX_SYSCALL_NUM,
        forall|j: int| 0 <= j < MAX_SYSCALL_NUM ==> r@[j] == 0u32,
{
    let mut r: Vec<u32> = Vec::new();
    let mut i: usize = 0;
    while i < MAX_SYSCALL_NUM
        invariant
            i <= MAX_SYSCALL_NUM,
            r@.len() == i,
            forall|j: int| 0 <= j < i ==> r@[j] == 0u32,
        decreases MAX_SYSCALL_NUM - i,
    {
        r.push(0u32);
        i += 1;
    }
    r
}

/// An independent copy of a syscall-count table.
pub fn clone_counts(src: &Vec<u32>) -> (r: Vec<u32>)
    ensures
        r@ == src@,
{
    let mut r: Vec<u32> = Vec::new();
    let n = src.len();
    for i in 0..n
        invariant
            n == src@.len(),
            r@.len() == i,
            forall|j: int| 0 <= j < i ==> r@[j] == src@[j],
    {
        r.push(src[i]);
    }
    proof {
        assert(r@ =~= src@);
    }
    r
}

/// A named program image the external loader would produce: the address
/// space a fresh execution of it starts with.
pub struct Program {
    pub name: Vec<u8>,
    pub image: AddressSpace,
}

impl Program {
    pub open spec fn wf(self) -> bool {
        self.image.wf()
    }
}

/// Whether two byte strings hold the same bytes.
pub fn bytes_eq(a: &Vec<u8>, b: &Vec<u8>) -> (r: bool)
    ensures
        r == (a@ == b@),
{
    if a.len() != b.len() {
        assert(a@ != b@);
        return false;
    }
    let n = a.len();
    for i in 0..n
        invariant
            n == a@.len() == b@.len(),
            forall|j: int| 0 <= j < i ==> a@[j] == b@[j],
    {
        if a[i] != b[i] {
            return false;
        }
    }
    proof {
        assert(a@ =~= b@);
    }
    true
}

} // verus!
