//! Wire values syscalls copy byte-for-byte into user memory: the wall-clock
//! `TimeVal` and the per-task `TaskInfo`.
//!
//! The layouts are fixed and explicit — little-endian fields in declaration
//! order, no padding — rather than whatever an in-memory representation
//! happens to be: a status tag word, then the fixed-size syscall-count
//! table, then the elapsed-time word for `TaskInfo`; seconds then
//! microseconds for `TimeVal`.
use vstd::prelude::*;

use crate::config::MAX_SYSCALL_NUM;
use crate::task::TaskStatus;

verus! {

/// Byte `i` (from the least significant end) of a 64-bit word.
pub open spec fn u64_le_byte(v: u64, i: int) -> u8 {
    ((v >> ((8 * i) as u64)) & 0xff) as u8
}

/// Byte `i` (from the least significant end) of a machine word, widened to
/// the fixed eight-byte wire word.
pub open spec fn usize_le_byte(v: usize, i: int) -> u8 {
    u64_le_byte(v as u64, i)
}

/// The eight little-endian bytes of a machine word.
pub open spec fn usize_bytes(v: usize) -> Seq<u8> {
    Seq::new(8, |i: int| usize_le_byte(v, i))
}

/// Byte `i` (from the least significant end) of a 32-bit word.
pub open spec fn u32_le_byte(v: u32, i: int) -> u8 {
    ((v >> ((8 * i) as u32)) & 0xff) as u8
}

/// The four little-endian bytes of a 32-bit word.
pub open spec fn u32_bytes(v: u32) -> Seq<u8> {
    Seq::new(4, |i: int| u32_le_byte(v, i))
}

/// The four little-endian bytes of an exit code's two's-complement value.
pub open spec fn i32_bytes(v: i32) -> Seq<u8> {
    u32_bytes(v as u32)
}

/// The four little-endian bytes of an exit code, as waitpid stores them
/// through the caller's out-pointer.
pub fn i32_to_bytes(v: i32) -> (r: Vec<u8>)
    ensures
        r@ == i32_bytes(v),
{
    let u = v as u32;
    let mut r = u32_to_bytes(u);
    proof {
        assert(r@ =~= i32_bytes(v));
    }
    r
}

/// Wall-clock time: seconds and microseconds, two machine words.
#[derive(Debug)]
pub struct TimeVal {
    pub sec: usize,
    pub usec: usize,
}

/// The wire form of a `TimeVal`: seconds then microseconds, little-endian.
pub open spec fn time_val_bytes(tv: TimeVal) -> Seq<u8> {
    usize_bytes(tv.sec) + usize_bytes(tv.usec)
}

impl TimeVal {
    /// The value's wire form, as `sys_get_time` copies it into user memory.
    #[verifier::loop_isolation(false)]
    pub fn to_bytes(&self) -> (r: Vec<u8>)
        ensures
            r@ == time_val_bytes(*self),
    {
        let mut r = self.usize_to_bytes(self.sec);
        let usec_bytes = self.usize_to_bytes(self.usec);
        let mut i: usize = 0;
        while i < 8
            invariant
                i <= 8,
                usec_bytes@.len() == 8,
                r@.len() == 8 + i,
                forall|j: int| 0 <= j < 8 ==> r@[j] == usize_le_byte(self.sec, j),
                forall|j: int| 0 <= j < i ==> r@[8 + j] == usize_le_byte(self.usec, j),
            decreases 8 - i,
        {
            r.push(usec_bytes[i]);
            i += 1;
        }
        proof {
            assert(r@ =~= time_val_bytes(*self));
        }
        r
    }

    /// The eight little-endian bytes of one machine word.
    #[verifier::loop_isolation(false)]
    fn usize_to_bytes(&self, val: usize) -> (r: Vec<u8>)
        ensures
            r@.len() == 8,
            forall|j: int| 0 <= j < 8 ==> r@[j] == usize_le_byte(val, j),
    {
        let mut r: Vec<u8> = Vec::new();
        let mut i: usize = 0;
        while i < 8
            invariant
                i <= 8,
                r@.len() == i,
                forall|j: int| 0 <= j < i ==> r@[j] == usize_le_byte(val, j),
            decreases 8 - i,
        {
            r.push((((val as u64) >> ((i as u64) * 8)) & 0xff) as u8);
            i += 1;
        }
        r
    }
}

/// The status tag a `TaskStatus` is serialized as.
pub open spec fn status_tag(s: TaskStatus) -> u32 {
    match s {
        TaskStatus::Ready => 0,
        TaskStatus::Running => 1,
        TaskStatus::Zombie => 2,
    }
}

/// The wire form of a syscall-count table: four little-endian bytes per
/// counter, in index order.
pub open spec fn counts_bytes(c: Seq<u32>) -> Seq<u8>
    decreases c.len(),
{
    if c.len() == 0 {
        Seq::empty()
    } else {
        counts_bytes(c.drop_last()) + u32_bytes(c.last())
    }
}

/// The wire form of a count table is four bytes per counter.
pub proof fn lemma_counts_bytes_len(c: Seq<u32>)
    ensures
        counts_bytes(c).len() == 4 * c.len(),
    decreases c.len(),
{
    if c.len() != 0 {
        lemma_counts_bytes_len(c.drop_last());
    }
}

/// Byte `b` of counter `k` sits at position `4k + b` of the wire table.
pub proof fn lemma_counts_bytes_index(c: Seq<u32>, k: int, b: int)
    requires
        0 <= k < c.len(),
        0 <= b < 4,
    ensures
        counts_bytes(c)[4 * k + b] == u32_le_byte(c[k], b),
    decreases c.len(),
{
    lemma_counts_bytes_len(c.drop_last());
    if k == c.len() - 1 {
        assert(counts_bytes(c)[4 * k + b] == u32_bytes(c.last())[b]);
    } else {
        lemma_counts_bytes_index(c.drop_last(), k, b);
        assert(c.drop_last()[k] == c[k]);
    }
}

/// The four little-endian bytes of a 32-bit word reassemble to it.
proof fn lemma_u32_reassemble(v: u32)
    ensures
        ((((v >> 0u32) & 0xff) as u8) as u32)
            | (((((v >> 8u32) & 0xff) as u8) as u32) << 8u32)
            | (((((v >> 16u32) & 0xff) as u8) as u32) << 16u32)
            | (((((v >> 24u32) & 0xff) as u8) as u32) << 24u32) == v,
{
    assert(((((v >> 0u32) & 0xff) as u8) as u32)
        | (((((v >> 8u32) & 0xff) as u8) as u32) << 8u32)
        | (((((v >> 16u32) & 0xff) as u8) as u32) << 16u32)
        | (((((v >> 24u32) & 0xff) as u8) as u32) << 24u32) == v) by (bit_vector);
}

/// The eight little-endian bytes of a 64-bit word reassemble to it.
proof fn lemma_u64_reassemble(v: u64)
    ensures
        ((((v >> 0u64) & 0xff) as u8) as u64)
            | (((((v >> 8u64) & 0xff) as u8) as u64) << 8u64)
            | (((((v >> 16u64) & 0xff) as u8) as u64) << 16u64)
            | (((((v >> 24u64) & 0xff) as u8) as u64) << 24u64)
            | (((((v >> 32u64) & 0xff) as u8) as u64) << 32u64)
            | (((((v >> 40u64) & 0xff) as u8) as u64) << 40u64)
            | (((((v >> 48u64) & 0xff) as u8) as u64) << 48u64)
            | (((((v >> 56u64) & 0xff) as u8) as u64) << 56u64) == v,
{
    assert(((((v >> 0u64) & 0xff) as u8) as u64)
        | (((((v >> 8u64) & 0xff) as u8) as u64) << 8u64)
        | (((((v >> 16u64) & 0xff) as u8) as u64) << 16u64)
        | (((((v >> 24u64) & 0xff) as u8) as u64) << 24u64)
        | (((((v >> 32u64) & 0xff) as u8) as u64) << 32u64)
        | (((((v >> 40u64) & 0xff) as u8) as u64) << 40u64)
        | (((((v >> 48u64) & 0xff) as u8) as u64) << 48u64)
        | (((((v >> 56u64) & 0xff) as u8) as u64) << 56u64) == v) by (bit_vector);
}

/// The byte length of a serialized `TaskInfo` with a full-size count table.
pub open spec fn task_info_wire_len() -> int {
    4 + 4 * MAX_SYSCALL_NUM + 8
}

/// Where each field of a well-formed `TaskInfo` sits in its wire form.
proof fn lemma_encoding_shape(bytes: Seq<u8>, ti: TaskInfo)
    requires
        ti.wf(),
        bytes == task_info_bytes(ti),
    ensures
        bytes.len() == 4 + 4 * MAX_SYSCALL_NUM + 8,
        forall|j: int| 0 <= j < 4 ==> #[trigger] bytes[j] == u32_le_byte(status_tag(ti.status), j),
        forall|k: int, b: int|
            #![trigger bytes[4 + 4 * k + b]]
            0 <= k < MAX_SYSCALL_NUM && 0 <= b < 4
                ==> bytes[4 + 4 * k + b] == u32_le_byte(ti.syscall_times@[k], b),
        forall|j: int| 0 <= j < 8
            ==> #[trigger] bytes[4 + 4 * MAX_SYSCALL_NUM + j] == usize_le_byte(ti.time, j),
{
    lemma_counts_bytes_len(ti.syscall_times@);
    assert forall|j: int| 0 <= j < 4
        implies #[trigger] bytes[j] == u32_le_byte(status_tag(ti.status), j) by {
        assert(bytes[j] == u32_bytes(status_tag(ti.status))[j]);
    }
    assert forall|k: int, b: int|
        #![trigger bytes[4 + 4 * k + b]]
        0 <= k < MAX_SYSCALL_NUM && 0 <= b < 4
        implies bytes[4 + 4 * k + b] == u32_le_byte(ti.syscall_times@[k], b) by {
        assert(bytes[4 + 4 * k + b] == counts_bytes(ti.syscall_times@)[4 * k + b]);
        lemma_counts_bytes_index(ti.syscall_times@, k, b);
    }
    assert forall|j: int| 0 <= j < 8
        implies #[trigger] bytes[4 + 4 * MAX_SYSCALL_NUM + j] == usize_le_byte(ti.time, j) by {
        assert(bytes[4 + 4 * MAX_SYSCALL_NUM + j] == usize_bytes(ti.time)[j]);
    }
}

/// What `task_info` reports about the calling task: its status, its
/// per-syscall invocation counts, and the milliseconds since its first
/// dispatch.
pub struct TaskInfo {
    pub status: TaskStatus,
    pub syscall_times: Vec<u32>,
    pub time: usize,
}

/// The wire form of a `TaskInfo`: status tag, count table, elapsed time.
pub open spec fn task_info_bytes(ti: TaskInfo) -> Seq<u8> {
    u32_bytes(status_tag(ti.status)) + counts_bytes(ti.syscall_times@) + usize_bytes(ti.time)
}

impl TaskInfo {
    pub open spec fn wf(self) -> bool {
        self.syscall_times@.len() == MAX_SYSCALL_NUM
    }

    pub fn new(status: TaskStatus, syscall_times: Vec<u32>, time: usize) -> (r: TaskInfo)
        ensures
            r == (TaskInfo { status, syscall_times, time }),
    {
        TaskInfo { status, syscall_times, time }
    }

    /// The status tag of this value.
    fn tag(&self) -> (r: u32)
        ensures
            r == status_tag(self.status),
    {
        match self.status {
            TaskStatus::Ready => 0,
            TaskStatus::Running => 1,
            TaskStatus::Zombie => 2,
        }
    }

    /// Reads a `TaskInfo` back out of its wire form, inverting `to_bytes`:
    /// accepted bytes are exactly a wire image of the returned value, and a
    /// refusal means no well-formed `TaskInfo` at all encodes to these
    /// bytes — a malformed length or status tag among them.
    pub fn from_bytes(bytes: &Vec<u8>) -> (r: Option<TaskInfo>)
        ensures
            match r {
                Some(ti) => ti.wf() && bytes@ == task_info_bytes(ti),
                None => forall|ti: TaskInfo| ti.wf() ==> bytes@ != task_info_bytes(ti),
            },
    {
        if bytes.len() != 4 + 4 * MAX_SYSCALL_NUM + 8 {
            proof {
                assert forall|ti: TaskInfo| ti.wf()
                    implies bytes@ != task_info_bytes(ti) by {
                    if bytes@ == task_info_bytes(ti) {
                        lemma_counts_bytes_len(ti.syscall_times@);
                    }
                }
            }
            return None;
        }
        let tag = read_u32(bytes, 0);
        proof {
            // whatever value the first word encodes, a real encoding's tag
            // reassembles to one of the three status tags
            assert forall|ti: TaskInfo| ti.wf() && bytes@ == task_info_bytes(ti)
                implies tag == status_tag(ti.status)
                    && (status_tag(ti.status) == 0 || status_tag(ti.status) == 1
                        || status_tag(ti.status) == 2) by {
                lemma_encoding_shape(bytes@, ti);
                lemma_u32_reassemble(status_tag(ti.status));
            }
        }
        let status = if tag == 0 {
            TaskStatus::Ready
        } else if tag == 1 {
            TaskStatus::Running
        } else if tag == 2 {
            TaskStatus::Zombie
        } else {
            return None;
        };
        let mut counts: Vec<u32> = Vec::new();
        let mut k: usize = 0;
        while k < MAX_SYSCALL_NUM
            invariant
                k <= MAX_SYSCALL_NUM,
                counts@.len() == k,
                bytes@.len() == 4 + 4 * MAX_SYSCALL_NUM + 8,
                forall|j: int| 0 <= j < k
                    ==> #[trigger] counts@[j] == (bytes@[4 + 4 * j] as u32)
                        | ((bytes@[4 + 4 * j + 1] as u32) << 8u32)
                        | ((bytes@[4 + 4 * j + 2] as u32) << 16u32)
                        | ((bytes@[4 + 4 * j + 3] as u32) << 24u32),
            decreases MAX_SYSCALL_NUM - k,
        {
            counts.push(read_u32(bytes, 4 + 4 * k));
            k += 1;
        }
        let toff = 4 + 4 * MAX_SYSCALL_NUM;
        let time: u64 = (bytes[toff] as u64) | ((bytes[toff + 1] as u64) << 8u64)
            | ((bytes[toff + 2] as u64) << 16u64) | ((bytes[toff + 3] as u64) << 24u64)
            | ((bytes[toff + 4] as u64) << 32u64) | ((bytes[toff + 5] as u64) << 40u64)
            | ((bytes[toff + 6] as u64) << 48u64) | ((bytes[toff + 7] as u64) << 56u64);
        let candidate = TaskInfo { status, syscall_times: counts, time: time as usize };
        let encoded = candidate.to_bytes();
        if crate::task::bytes_eq(bytes, &encoded) {
            Some(candidate)
        } else {
            proof {
                // a decoder that got this far reconstructs any real encoding
                // field by field, so the re-encoding would have matched
                assert forall|ti: TaskInfo| ti.wf()
                    implies bytes@ != task_info_bytes(ti) by {
                    if bytes@ == task_info_bytes(ti) {
                        lemma_encoding_shape(bytes@, ti);
                        lemma_u32_reassemble(status_tag(ti.status));
                        assert(tag == status_tag(ti.status));
                        assert(candidate.status == ti.status);
                        assert forall|kk: int| 0 <= kk < MAX_SYSCALL_NUM
                            implies candidate.syscall_times@[kk]
                                == ti.syscall_times@[kk] by {
                            assert(bytes@[4 + 4 * kk + 0]
                                == u32_le_byte(ti.syscall_times@[kk], 0));
                            assert(bytes@[4 + 4 * kk + 1]
                                == u32_le_byte(ti.syscall_times@[kk], 1));
                            assert(bytes@[4 + 4 * kk + 2]
                                == u32_le_byte(ti.syscall_times@[kk], 2));
                            assert(bytes@[4 + 4 * kk + 3]
                                == u32_le_byte(ti.syscall_times@[kk], 3));
                            lemma_u32_reassemble(ti.syscall_times@[kk]);
                        }
                        assert(candidate.syscall_times@ =~= ti.syscall_times@);
                        assert(toff as int == 4 + 4 * MAX_SYSCALL_NUM);
                        assert(bytes@[4 + 4 * MAX_SYSCALL_NUM + 0] == usize_le_byte(ti.time, 0));
                        assert(bytes@[4 + 4 * MAX_SYSCALL_NUM + 1] == usize_le_byte(ti.time, 1));
                        assert(bytes@[4 + 4 * MAX_SYSCALL_NUM + 2] == usize_le_byte(ti.time, 2));
                        assert(bytes@[4 + 4 * MAX_SYSCALL_NUM + 3] == usize_le_byte(ti.time, 3));
                        assert(bytes@[4 + 4 * MAX_SYSCALL_NUM + 4] == usize_le_byte(ti.time, 4));
                        assert(bytes@[4 + 4 * MAX_SYSCALL_NUM + 5] == usize_le_byte(ti.time, 5));
                        assert(bytes@[4 + 4 * MAX_SYSCALL_NUM + 6] == usize_le_byte(ti.time, 6));
                        assert(bytes@[4 + 4 * MAX_SYSCALL_NUM + 7] == usize_le_byte(ti.time, 7));
                        lemma_u64_reassemble(ti.time as u64);
                        assert(time == ti.time as u64);
                        assert(candidate.time == ti.time);
                        assert(task_info_bytes(candidate) == task_info_bytes(ti));
                        assert(encoded@ == bytes@);
                        assert(false);
                    }
                }
            }
            None
        }
    }

    /// The value's wire form, as `sys_task_info` copies it into user memory.
    #[verifier::loop_isolation(false)]
    pub fn to_bytes(&self) -> (r: Vec<u8>)
        ensures
            r@ == task_info_bytes(*self),
    {
        let tag = self.tag();
        let mut r = u32_to_bytes(tag);
        let n = self.syscall_times.len();
        let mut k: usize = 0;
        while k < n
            invariant
                k <= n,
                r@ == u32_bytes(status_tag(self.status))
                    + counts_bytes(self.syscall_times@.take(k as int)),
            decreases n - k,
        {
            let ghost before = r@;
            let four = u32_to_bytes(self.syscall_times[k]);
            let mut b: usize = 0;
            while b < 4
                invariant
                    b <= 4,
                    four@.len() == 4,
                    four@ == u32_bytes(self.syscall_times@[k as int]),
                    r@ == before + four@.take(b as int),
                decreases 4 - b,
            {
                r.push(four[b]);
                proof {
                    assert(r@ =~= before + four@.take(b + 1));
                }
                b += 1;
            }
            proof {
                assert(four@.take(4) =~= four@);
                let taken = self.syscall_times@.take(k + 1);
                assert(taken.drop_last() =~= self.syscall_times@.take(k as int));
                assert(taken.last() == self.syscall_times@[k as int]);
                assert(r@ =~= u32_bytes(status_tag(self.status)) + counts_bytes(taken));
            }
            k += 1;
        }
        proof {
            assert(self.syscall_times@.take(n as int) =~= self.syscall_times@);
        }
        let ghost mid = r@;
        let mut b: usize = 0;
        while b < 8
            invariant
                b <= 8,
                r@ == mid + usize_bytes(self.time).take(b as int),
            decreases 8 - b,
        {
            r.push((((self.time as u64) >> ((b as u64) * 8)) & 0xff) as u8);
            proof {
                assert(r@ =~= mid + usize_bytes(self.time).take(b + 1));
            }
            b += 1;
        }
        proof {
            assert(usize_bytes(self.time).take(8) =~= usize_bytes(self.time));
            assert(r@ =~= task_info_bytes(*self));
        }
        r
    }
}

/// The 32-bit word whose little-endian bytes sit at `off`.
fn read_u32(bytes: &Vec<u8>, off: usize) -> (r: u32)
    requires
        off + 4 <= bytes@.len(),
    ensures
        r == (bytes@[off as int] as u32) | ((bytes@[off as int + 1] as u32) << 8u32)
            | ((bytes@[off as int + 2] as u32) << 16u32)
            | ((bytes@[off as int + 3] as u32) << 24u32),
{
    let n: usize = bytes.len();
    assert(off + 4 <= n);
    (bytes[off] as u32) | ((bytes[off + 1] as u32) << 8u32) | ((bytes[off + 2] as u32) << 16u32)
        | ((bytes[off + 3] as u32) << 24u32)
}

/// The four little-endian bytes of a 32-bit word.
fn u32_to_bytes(v: u32) -> (r: Vec<u8>)
    ensures
        r@ == u32_bytes(v),
{
    let mut r: Vec<u8> = Vec::new();
    r.push((v & 0xff) as u8);
    r.push(((v >> 8u32) & 0xff) as u8);
    r.push(((v >> 16u32) & 0xff) as u8);
    r.push(((v >> 24u32) & 0xff) as u8);
    proof {
        assert(((v >> 0u32) & 0xff) as u8 == (v & 0xff) as u8) by (bit_vector);
        assert(r@[0] == u32_le_byte(v, 0));
        assert(r@[1] == u32_le_byte(v, 1));
        assert(r@[2] == u32_le_byte(v, 2));
        assert(r@[3] == u32_le_byte(v, 3));
        assert(r@ =~= u32_bytes(v));
    }
    r
}

} // verus!
