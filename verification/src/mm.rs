//! Address-space model: the set of mapped virtual pages of one process, each
//! with its permission bits and its contents, plus the heap bounds that sbrk
//! adjusts.
//!
//! The page-table hardware itself is out of scope; what the kernel logic
//! reads and decides on — which pages are mapped, with which permissions,
//! holding which bytes — is held here as plain values, so every operation on
//! it is verified.
use vstd::prelude::*;

use crate::config::PAGE_SIZE;

verus! {

/// Virtual page number covering byte address `addr`.
pub open spec fn vpn_of(addr: int) -> int {
    addr / (PAGE_SIZE as int)
}

/// Offset of byte address `addr` within its page.
pub open spec fn off_of(addr: int) -> int {
    addr % (PAGE_SIZE as int)
}

/// First page number at or above byte address `addr`.
pub open spec fn vpn_ceil(addr: int) -> int {
    if addr % (PAGE_SIZE as int) == 0 {
        addr / (PAGE_SIZE as int)
    } else {
        addr / (PAGE_SIZE as int) + 1
    }
}

pub open spec fn page_aligned(addr: int) -> bool {
    addr % (PAGE_SIZE as int) == 0
}

/// One mapped virtual page: its page number, its permission bits
/// (bit0 = read, bit1 = write, bit2 = execute), and its contents.
pub struct MappedPage {
    pub vpn: usize,
    pub perm: u8,
    pub data: Vec<u8>,
}

impl MappedPage {
    pub open spec fn wf(self) -> bool {
        self.data@.len() == PAGE_SIZE
    }
}

/// The virtual memory layout of one process: its mapped pages and the heap
/// region tracked by `heap_bottom` and `program_break`.
pub struct AddressSpace {
    pub pages: Vec<MappedPage>,
    pub heap_bottom: usize,
    pub program_break: usize,
}

impl AddressSpace {
    pub open spec fn wf(self) -> bool {
        &&& forall|i: int|
            0 <= i < self.pages@.len() ==> (#[trigger] self.pages@[i]).wf()
        &&& forall|i: int, j: int|
            0 <= i < self.pages@.len() && 0 <= j < self.pages@.len() && i != j
                ==> (#[trigger] self.pages@[i]).vpn != (#[trigger] self.pages@[j]).vpn
        &&& self.heap_bottom <= self.program_break
    }

    /// Whether virtual page `vpn` is mapped.
    pub open spec fn mapped(self, vpn: int) -> bool {
        exists|i: int| 0 <= i < self.pages@.len() && (#[trigger] self.pages@[i]).vpn == vpn
    }

    /// Index in `pages` of the page with number `vpn`; meaningful when
    /// `mapped(vpn)` holds and the space is well-formed.
    pub open spec fn idx_of(self, vpn: int) -> int {
        choose|i: int| 0 <= i < self.pages@.len() && (#[trigger] self.pages@[i]).vpn == vpn
    }

    /// Permission bits of mapped page `vpn`.
    pub open spec fn perm_at(self, vpn: int) -> u8 {
        self.pages@[self.idx_of(vpn)].perm
    }

    /// Byte `off` of mapped page `vpn`.
    pub open spec fn byte_at(self, vpn: int, off: int) -> u8 {
        self.pages@[self.idx_of(vpn)].data@[off]
    }

    /// Whether the page holding byte address `addr` is mapped.
    pub open spec fn addr_mapped(self, addr: int) -> bool {
        self.mapped(vpn_of(addr))
    }

    /// The byte of user memory at address `addr`.
    pub open spec fn mem_byte(self, addr: int) -> u8 {
        self.byte_at(vpn_of(addr), off_of(addr))
    }

    /// The `len` bytes of user memory starting at `addr`.
    pub open spec fn mem_bytes(self, addr: int, len: int) -> Seq<u8> {
        Seq::new(len as nat, |k: int| self.mem_byte(addr + k))
    }

    /// Every byte of `[addr, addr + len)` lies on a mapped page.
    pub open spec fn range_mapped(self, addr: int, len: int) -> bool {
        forall|k: int| 0 <= k < len ==> #[trigger] self.addr_mapped(addr + k)
    }

    /// The page holding byte address `addr` is mapped with read permission.
    pub open spec fn addr_readable(self, addr: int) -> bool {
        self.addr_mapped(addr) && self.perm_at(vpn_of(addr)) & 1 != 0
    }

    /// The page holding byte address `addr` is mapped with write permission.
    pub open spec fn addr_writable(self, addr: int) -> bool {
        self.addr_mapped(addr) && self.perm_at(vpn_of(addr)) & 2 != 0
    }

    /// Every byte of `[addr, addr + len)` may be read.
    pub open spec fn range_readable(self, addr: int, len: int) -> bool {
        forall|k: int| 0 <= k < len ==> #[trigger] self.addr_readable(addr + k)
    }

    /// Every byte of `[addr, addr + len)` may be written.
    pub open spec fn range_writable(self, addr: int, len: int) -> bool {
        forall|k: int| 0 <= k < len ==> #[trigger] self.addr_writable(addr + k)
    }

    /// The page with number `pages[i].vpn` is found exactly at index `i`.
    pub proof fn lemma_idx_of(self, i: int)
        requires
            self.wf(),
            0 <= i < self.pages@.len(),
        ensures
            self.mapped(self.pages@[i].vpn as int),
            self.idx_of(self.pages@[i].vpn as int) == i,
    {
        let vpn = self.pages@[i].vpn as int;
        assert(self.mapped(vpn));
        let j = self.idx_of(vpn);
        assert(0 <= j < self.pages@.len() && self.pages@[j].vpn == vpn);
        if j != i {
            assert(self.pages@[i].vpn != self.pages@[j].vpn);
        }
    }
}

/// `a` and `b` describe the same memory: same mapped pages, permissions,
/// contents and heap bounds.
pub open spec fn same_view(a: AddressSpace, b: AddressSpace) -> bool {
    &&& forall|v: int| #![trigger a.mapped(v)] #![trigger b.mapped(v)] a.mapped(v) == b.mapped(v)
    &&& forall|v: int| a.mapped(v) ==> #[trigger] a.perm_at(v) == #[trigger] b.perm_at(v)
    &&& forall|v: int, o: int|
        a.mapped(v) && 0 <= o < PAGE_SIZE ==> a.byte_at(v, o) == b.byte_at(v, o)
    &&& a.heap_bottom == b.heap_bottom
    &&& a.program_break == b.program_break
}

/// Whether `port` is an acceptable permission request: nothing above bit2,
/// and at least one of read/write/execute set.
pub open spec fn port_valid(port: usize) -> bool {
    port & !0x7 == 0 && port & 0x7 != 0
}

/// First page of the range mmap and munmap cover.
pub open spec fn range_lo(start: usize) -> int {
    vpn_of(start as int)
}

/// One past the last page of the range mmap and munmap cover.
pub open spec fn range_hi(start: usize, len: usize) -> int {
    vpn_ceil(start as int + len as int)
}

/// Whether the covering page range of `[start, start + len)` intersects
/// the pages the heap span `[heap_bottom, program_break)` occupies.
pub open spec fn heap_overlap(s: AddressSpace, start: usize, len: usize) -> bool {
    &&& s.heap_bottom < s.program_break
    &&& range_lo(start) < vpn_ceil(s.program_break as int)
    &&& vpn_of(s.heap_bottom as int) < range_hi(start, len)
}

/// When `mmap(start, len, port)` succeeds on space `s`: an aligned start, a
/// valid port, and a non-trivial range that fits the address space and
/// touches neither an existing mapping nor the heap span.
pub open spec fn mmap_accepts(s: AddressSpace, start: usize, len: usize, port: usize) -> bool {
    &&& page_aligned(start as int)
    &&& port_valid(port)
    &&& (len == 0 || {
        &&& start + len <= usize::MAX
        &&& (forall|v: int| range_lo(start) <= v < range_hi(start, len) ==> !s.mapped(v))
        &&& !heap_overlap(s, start, len)
    })
}

/// What a successful `mmap(start, len, port)` leaves behind: the covering
/// range freshly mapped with the requested permissions and zeroed contents,
/// everything else untouched.
pub open spec fn mmap_post(
    pre: AddressSpace,
    post: AddressSpace,
    start: usize,
    len: usize,
    port: usize,
) -> bool {
    &&& forall|v: int| #![trigger post.mapped(v)] #![trigger pre.mapped(v)]
        post.mapped(v) == (pre.mapped(v) || (len > 0 && range_lo(start) <= v < range_hi(start, len)))
    &&& forall|v: int| pre.mapped(v) ==> #[trigger] post.perm_at(v) == pre.perm_at(v)
    &&& forall|v: int, o: int|
        pre.mapped(v) ==> #[trigger] post.byte_at(v, o) == pre.byte_at(v, o)
    &&& len > 0 ==> forall|v: int|
        range_lo(start) <= v < range_hi(start, len)
            ==> #[trigger] post.perm_at(v) == (port & 0x7) as u8
    &&& len > 0 ==> forall|v: int, o: int|
        range_lo(start) <= v < range_hi(start, len) && 0 <= o < PAGE_SIZE
            ==> #[trigger] post.byte_at(v, o) == 0u8
    &&& post.heap_bottom == pre.heap_bottom
    &&& post.program_break == pre.program_break
}

/// When `munmap(start, len)` succeeds on space `s`.
pub open spec fn munmap_accepts(s: AddressSpace, start: usize, len: usize) -> bool {
    &&& page_aligned(start as int)
    &&& (len == 0 || {
        &&& start + len <= usize::MAX
        &&& forall|v: int| range_lo(start) <= v < range_hi(start, len) ==> s.mapped(v)
    })
}

/// What a successful `munmap(start, len)` leaves behind: the covering range
/// unmapped, everything else untouched.
pub open spec fn munmap_post(
    pre: AddressSpace,
    post: AddressSpace,
    start: usize,
    len: usize,
) -> bool {
    &&& forall|v: int| #![trigger post.mapped(v)] #![trigger pre.mapped(v)]
        post.mapped(v) == (pre.mapped(v) && !(len > 0 && range_lo(start) <= v < range_hi(start, len)))
    &&& forall|v: int| post.mapped(v) ==> #[trigger] post.perm_at(v) == pre.perm_at(v)
    &&& forall|v: int, o: int|
        post.mapped(v) ==> #[trigger] post.byte_at(v, o) == pre.byte_at(v, o)
    &&& post.heap_bottom == pre.heap_bottom
    &&& post.program_break == pre.program_break
}

/// When moving the program break by `delta` succeeds on space `s`: the new
/// break stays at or above the heap's origin and within the address range,
/// and growth claims no page an existing mapping holds.
pub open spec fn sbrk_accepts(s: AddressSpace, delta: i32) -> bool {
    &&& s.heap_bottom <= s.program_break + delta as int
    &&& s.program_break + delta as int <= usize::MAX
    &&& (delta <= 0 || forall|v: int|
        vpn_of(s.program_break as int) <= v < vpn_ceil(s.program_break + delta as int)
            ==> !s.mapped(v))
}

/// What writing one byte of user memory leaves behind: the byte at `addr`
/// holds `val`, every other byte and every mapping is untouched.
pub open spec fn write_byte_post(pre: AddressSpace, post: AddressSpace, addr: usize, val: u8) -> bool {
    &&& forall|v: int| #![trigger post.mapped(v)] #![trigger pre.mapped(v)]
        post.mapped(v) == pre.mapped(v)
    &&& forall|v: int| pre.mapped(v) ==> #[trigger] post.perm_at(v) == pre.perm_at(v)
    &&& post.mem_byte(addr as int) == val
    &&& forall|b: int| #![trigger post.mem_byte(b)]
        pre.addr_mapped(b) && b != addr ==> post.mem_byte(b) == pre.mem_byte(b)
    &&& post.heap_bottom == pre.heap_bottom
    &&& post.program_break == pre.program_break
}

/// What writing a run of bytes of user memory leaves behind: `[addr,
/// addr + data.len())` holds `data`, every other byte and every mapping is
/// untouched.
pub open spec fn write_bytes_post(
    pre: AddressSpace,
    post: AddressSpace,
    addr: int,
    data: Seq<u8>,
) -> bool {
    &&& forall|v: int| #![trigger post.mapped(v)] #![trigger pre.mapped(v)]
        post.mapped(v) == pre.mapped(v)
    &&& forall|v: int| pre.mapped(v) ==> #[trigger] post.perm_at(v) == pre.perm_at(v)
    &&& post.mem_bytes(addr, data.len() as int) == data
    &&& forall|b: int| #![trigger post.mem_byte(b)]
        pre.addr_mapped(b) && !(addr <= b < addr + data.len())
            ==> post.mem_byte(b) == pre.mem_byte(b)
    &&& post.heap_bottom == pre.heap_bottom
    &&& post.program_break == pre.program_break
}

/// Appending a page with a fresh page number keeps the space well-formed and
/// leaves every previously mapped page untouched.
proof fn lemma_push_frame(pre: AddressSpace, post: AddressSpace, p: MappedPage)
    requires
        pre.wf(),
        p.wf(),
        !pre.mapped(p.vpn as int),
        post.pages@ == pre.pages@.push(p),
        post.heap_bottom == pre.heap_bottom,
        post.program_break == pre.program_break,
    ensures
        post.wf(),
        forall|v: int| #![trigger post.mapped(v)] #![trigger pre.mapped(v)]
            post.mapped(v) == (pre.mapped(v) || v == p.vpn as int),
        forall|v: int| pre.mapped(v) ==> #[trigger] post.perm_at(v) == pre.perm_at(v),
        forall|v: int, o: int|
            pre.mapped(v) ==> #[trigger] post.byte_at(v, o) == pre.byte_at(v, o),
        post.perm_at(p.vpn as int) == p.perm,
        forall|o: int| #[trigger] post.byte_at(p.vpn as int, o) == p.data@[o],
{
    let n = pre.pages@.len() as int;
    assert forall|i: int| 0 <= i < n implies pre.pages@[i].vpn != p.vpn by {
        if pre.pages@[i].vpn == p.vpn {
            assert(pre.mapped(p.vpn as int));
        }
    }
    assert(post.wf());
    assert forall|v: int| post.mapped(v) == (pre.mapped(v) || v == p.vpn as int) by {
        if post.mapped(v) {
            let i = choose|i: int|
                0 <= i < post.pages@.len() && (#[trigger] post.pages@[i]).vpn == v;
            if i < n {
                assert(pre.pages@[i].vpn == v);
                assert(pre.mapped(v));
            } else {
                assert(v == p.vpn as int);
            }
        }
        if pre.mapped(v) {
            let i = choose|i: int|
                0 <= i < pre.pages@.len() && (#[trigger] pre.pages@[i]).vpn == v;
            assert(post.pages@[i].vpn == v);
            assert(post.mapped(v));
        }
        if v == p.vpn as int {
            assert(post.pages@[n].vpn == v);
            assert(post.mapped(v));
        }
    }
    assert forall|v: int| pre.mapped(v) implies post.perm_at(v) == pre.perm_at(v)
        && forall|o: int| #[trigger] post.byte_at(v, o) == pre.byte_at(v, o) by {
        let i = pre.idx_of(v);
        assert(0 <= i < n && pre.pages@[i].vpn == v);
        pre.lemma_idx_of(i);
        assert(post.pages@[i].vpn == v);
        post.lemma_idx_of(i);
        assert(post.idx_of(v) == i);
    }
    assert(post.pages@[n].vpn == p.vpn);
    post.lemma_idx_of(n);
    assert(post.perm_at(p.vpn as int) == p.perm);
}

/// Removing the page at index `k` unmaps exactly its page number and leaves
/// every other mapped page untouched.
proof fn lemma_remove_frame(pre: AddressSpace, post: AddressSpace, k: int)
    requires
        pre.wf(),
        0 <= k < pre.pages@.len(),
        post.pages@ == pre.pages@.remove(k),
        post.heap_bottom == pre.heap_bottom,
        post.program_break == pre.program_break,
    ensures
        post.wf(),
        forall|v: int| #![trigger post.mapped(v)] #![trigger pre.mapped(v)]
            post.mapped(v) == (pre.mapped(v) && v != pre.pages@[k].vpn as int),
        forall|v: int| post.mapped(v) ==> #[trigger] post.perm_at(v) == pre.perm_at(v),
        forall|v: int, o: int|
            post.mapped(v) ==> #[trigger] post.byte_at(v, o) == pre.byte_at(v, o),
{
    let n = pre.pages@.len() as int;
    let rvpn = pre.pages@[k].vpn as int;
    assert forall|i: int| 0 <= i < n - 1 implies post.pages@[i]
        == pre.pages@[if i < k { i } else { i + 1 }] by {}
    assert(post.wf());
    assert forall|v: int| post.mapped(v) == (pre.mapped(v) && v != rvpn) by {
        if post.mapped(v) {
            let i = choose|i: int|
                0 <= i < post.pages@.len() && (#[trigger] post.pages@[i]).vpn == v;
            let ip = if i < k { i } else { i + 1 };
            assert(pre.pages@[ip].vpn == v);
            assert(pre.mapped(v));
            if v == rvpn {
                // two distinct indices of pre would share the page number
                assert(pre.pages@[ip].vpn == pre.pages@[k].vpn && ip != k);
            }
        }
        if pre.mapped(v) && v != rvpn {
            let i = choose|i: int|
                0 <= i < pre.pages@.len() && (#[trigger] pre.pages@[i]).vpn == v;
            assert(i != k);
            let ip = if i < k { i } else { i - 1 };
            assert(post.pages@[ip].vpn == v);
            assert(post.mapped(v));
        }
    }
    assert forall|v: int| post.mapped(v) implies post.perm_at(v) == pre.perm_at(v)
        && forall|o: int| #[trigger] post.byte_at(v, o) == pre.byte_at(v, o) by {
        let i = post.idx_of(v);
        assert(0 <= i < post.pages@.len() && post.pages@[i].vpn == v);
        post.lemma_idx_of(i);
        let ip = if i < k { i } else { i + 1 };
        assert(pre.pages@[ip].vpn == v);
        pre.lemma_idx_of(ip);
        assert(pre.idx_of(v) == ip);
        assert(post.pages@[i] == pre.pages@[ip]);
    }
}

impl AddressSpace {
    /// An address space with no mapped pages and an empty heap at `base`.
    pub fn empty(base: usize) -> (r: AddressSpace)
        ensures
            r.wf(),
            forall|v: int| !r.mapped(v),
            r.heap_bottom == base,
            r.program_break == base,
    {
        AddressSpace { pages: Vec::new(), heap_bottom: base, program_break: base }
    }

    /// A zero-filled page body.
    #[verifier::loop_isolation(false)]
    fn zero_page() -> (r: Vec<u8>)
        ensures
            r@.len() == PAGE_SIZE,
            forall|o: int| 0 <= o < PAGE_SIZE ==> r@[o] == 0u8,
    {
        let mut data: Vec<u8> = Vec::new();
        let mut o: usize = 0;
        while o < PAGE_SIZE
            invariant
                o <= PAGE_SIZE,
                data@.len() == o,
                forall|j: int| 0 <= j < o ==> data@[j] == 0u8,
            decreases PAGE_SIZE - o,
        {
            data.push(0u8);
            o += 1;
        }
        data
    }

    /// Maps every page of the covering range `[vpn_of(start), vpn_ceil(start + len))`
    /// as a fresh anonymous region.  Accepted only for a page-aligned `start`,
    /// a `port` whose bits above bit2 are clear and whose low three bits are
    /// not all clear, and a range that fits the address space and is disjoint
    /// from every existing mapping and from the heap span; a zero `len` is a
    /// trivial success.  Returns 0 on success, -1 on refusal.
    #[verifier::loop_isolation(false)]
    pub fn mmap(&mut self, start: usize, len: usize, port: usize) -> (r: isize)
        requires
            old(self).wf(),
        ensures
            final(self).wf(),
            r == 0 || r == -1,
            (r == 0) == mmap_accepts(*old(self), start, len, port),
            r == -1 ==> *final(self) == *old(self),
            r == 0 ==> mmap_post(*old(self), *final(self), start, len, port),
    {
        if start % PAGE_SIZE != 0 {
            return -1;
        }
        if port & !0x7 != 0 || port & 0x7 == 0 {
            return -1;
        }
        if len == 0 {
            return 0;
        }
        if usize::MAX - start < len {
            return -1;
        }
        let lo = start / PAGE_SIZE;
        let end = start + len;
        let hi = end / PAGE_SIZE + if end % PAGE_SIZE != 0 { 1 } else { 0 };
        assert(lo < hi);
        if self.heap_bottom < self.program_break {
            let h_lo = self.heap_bottom / PAGE_SIZE;
            let h_hi = self.program_break / PAGE_SIZE
                + if self.program_break % PAGE_SIZE != 0 {
                1
            } else {
                0
            };
            if lo < h_hi && h_lo < hi {
                return -1;
            }
        }
        let mut v = lo;
        while v < hi
            invariant
                lo <= v <= hi,
                *self == *old(self),
                forall|w: int| lo <= w < v ==> !self.mapped(w),
            decreases hi - v,
        {
            if self.find_page(v).is_some() {
                return -1;
            }
            v += 1;
        }
        let perm = (port & 0x7) as u8;
        let ghost pre = *self;
        let mut v = lo;
        while v < hi
            invariant
                lo <= v <= hi,
                self.wf(),
                pre.wf(),
                self.heap_bottom == pre.heap_bottom,
                self.program_break == pre.program_break,
                forall|w: int| lo <= w < hi ==> !pre.mapped(w),
                forall|w: int| #![trigger self.mapped(w)] #![trigger pre.mapped(w)]
                    self.mapped(w) == (pre.mapped(w) || lo <= w < v),
                forall|w: int| pre.mapped(w) ==> #[trigger] self.perm_at(w) == pre.perm_at(w),
                forall|w: int, o: int|
                    pre.mapped(w) ==> #[trigger] self.byte_at(w, o) == pre.byte_at(w, o),
                forall|w: int| lo <= w < v ==> #[trigger] self.perm_at(w) == perm,
                forall|w: int, o: int|
                    lo <= w < v && 0 <= o < PAGE_SIZE
                        ==> #[trigger] self.byte_at(w, o) == 0u8,
            decreases hi - v,
        {
            let data = Self::zero_page();
            let page = MappedPage { vpn: v, perm, data };
            let ghost before = *self;
            self.pages.push(page);
            proof {
                lemma_push_frame(before, *self, page);
            }
            v += 1;
        }
        0
    }

    /// Unmaps every page of the covering range.  Accepted only for a
    /// page-aligned `start` and a range every page of which is mapped; a zero
    /// `len` is a trivial success.  Returns 0 on success, -1 on refusal.
    #[verifier::loop_isolation(false)]
    pub fn munmap(&mut self, start: usize, len: usize) -> (r: isize)
        requires
            old(self).wf(),
        ensures
            final(self).wf(),
            r == 0 || r == -1,
            (r == 0) == munmap_accepts(*old(self), start, len),
            r == -1 ==> *final(self) == *old(self),
            r == 0 ==> munmap_post(*old(self), *final(self), start, len),
    {
        if start % PAGE_SIZE != 0 {
            return -1;
        }
        if len == 0 {
            return 0;
        }
        if usize::MAX - start < len {
            return -1;
        }
        let lo = start / PAGE_SIZE;
        let end = start + len;
        let hi = end / PAGE_SIZE + if end % PAGE_SIZE != 0 { 1 } else { 0 };
        let mut v = lo;
        while v < hi
            invariant
                lo <= v <= hi,
                *self == *old(self),
                forall|w: int| lo <= w < v ==> self.mapped(w),
            decreases hi - v,
        {
            if self.find_page(v).is_none() {
                return -1;
            }
            v += 1;
        }
        let ghost pre = *self;
        let mut v = lo;
        while v < hi
            invariant
                lo <= v <= hi,
                self.wf(),
                pre.wf(),
                self.heap_bottom == pre.heap_bottom,
                self.program_break == pre.program_break,
                forall|w: int| lo <= w < hi ==> pre.mapped(w),
                forall|w: int| #![trigger self.mapped(w)] #![trigger pre.mapped(w)]
                    self.mapped(w) == (pre.mapped(w) && !(lo <= w < v)),
                forall|w: int| self.mapped(w) ==> #[trigger] self.perm_at(w) == pre.perm_at(w),
                forall|w: int, o: int|
                    self.mapped(w) ==> #[trigger] self.byte_at(w, o) == pre.byte_at(w, o),
            decreases hi - v,
        {
            let k = match self.find_page(v) {
                Some(k) => k,
                None => {
                    proof {
                        assert(false);
                    }
                    0
                },
            };
            let ghost before = *self;
            self.pages.remove(k);
            proof {
                lemma_remove_frame(before, *self, k as int);
            }
            v += 1;
        }
        0
    }

    /// Moves the program break by `delta` bytes (negative shrinks the heap).
    /// Returns the previous break on success; refused when the new break
    /// would fall below the heap's origin, leave the address range, or grow
    /// the heap onto a page an existing mapping holds.
    #[verifier::loop_isolation(false)]
    pub fn change_program_brk(&mut self, delta: i32) -> (r: Option<usize>)
        requires
            old(self).wf(),
        ensures
            final(self).wf(),
            final(self).pages == old(self).pages,
            final(self).heap_bottom == old(self).heap_bottom,
            (r is Some) == sbrk_accepts(*old(self), delta),
            r is Some ==> r == Some(old(self).program_break)
                && final(self).program_break
                    == (old(self).program_break + delta as int) as usize,
            r is None ==> *final(self) == *old(self),
    {
        let old_brk = self.program_break;
        if delta >= 0 {
            let d = delta as usize;
            if usize::MAX - old_brk < d {
                return None;
            }
            let new_brk = old_brk + d;
            if delta > 0 {
                let lo = old_brk / PAGE_SIZE;
                let hi = new_brk / PAGE_SIZE
                    + if new_brk % PAGE_SIZE != 0 {
                    1
                } else {
                    0
                };
                let mut v = lo;
                while v < hi
                    invariant
                        lo <= v <= hi,
                        *self == *old(self),
                        forall|w: int| lo <= w < v ==> !self.mapped(w),
                    decreases hi - v,
                {
                    if self.find_page(v).is_some() {
                        return None;
                    }
                    v += 1;
                }
            }
            self.program_break = new_brk;
        } else {
            let d = (-(delta as i64)) as usize;
            if old_brk < d || old_brk - d < self.heap_bottom {
                return None;
            }
            self.program_break = old_brk - d;
        }
        Some(old_brk)
    }

    /// Index of the page with number `vpn`, if that page is mapped.
    #[verifier::loop_isolation(false)]
    pub fn find_page(&self, vpn: usize) -> (r: Option<usize>)
        ensures
            match r {
                Some(i) => i < self.pages@.len() && self.pages@[i as int].vpn == vpn
                    && self.mapped(vpn as int),
                None => !self.mapped(vpn as int),
            },
    {
        let n = self.pages.len();
        for i in 0..n
            invariant
                n == self.pages@.len(),
                forall|j: int| 0 <= j < i ==> (#[trigger] self.pages@[j]).vpn != vpn,
        {
            if self.pages[i].vpn == vpn {
                return Some(i);
            }
        }
        None
    }
}

/// Replacing the contents of one byte of the page at index `i` keeps every
/// mapping and every other byte as it was.
proof fn lemma_update_byte_frame(pre: AddressSpace, post: AddressSpace, i: int, o: int, val: u8)
    requires
        pre.wf(),
        0 <= i < pre.pages@.len(),
        0 <= o < PAGE_SIZE,
        post.pages@.len() == pre.pages@.len(),
        forall|j: int| 0 <= j < pre.pages@.len() && j != i
            ==> #[trigger] post.pages@[j] == pre.pages@[j],
        post.pages@[i].vpn == pre.pages@[i].vpn,
        post.pages@[i].perm == pre.pages@[i].perm,
        post.pages@[i].data@ == pre.pages@[i].data@.update(o, val),
        post.heap_bottom == pre.heap_bottom,
        post.program_break == pre.program_break,
    ensures
        post.wf(),
        forall|v: int| #![trigger post.mapped(v)] #![trigger pre.mapped(v)]
            post.mapped(v) == pre.mapped(v),
        forall|v: int| pre.mapped(v) ==> #[trigger] post.perm_at(v) == pre.perm_at(v),
        post.byte_at(pre.pages@[i].vpn as int, o) == val,
        forall|v: int, oo: int| #![trigger post.byte_at(v, oo)]
            pre.mapped(v) && 0 <= oo < PAGE_SIZE
                && !(v == pre.pages@[i].vpn as int && oo == o)
                ==> post.byte_at(v, oo) == pre.byte_at(v, oo),
{
    let n = pre.pages@.len() as int;
    assert forall|j: int| 0 <= j < n implies (#[trigger] post.pages@[j]).vpn
        == pre.pages@[j].vpn && post.pages@[j].wf() by {
        if j != i {
            assert(post.pages@[j] == pre.pages@[j]);
        }
    }
    assert(post.wf());
    assert forall|v: int| #![trigger post.mapped(v)] #![trigger pre.mapped(v)]
        post.mapped(v) == pre.mapped(v) by {
        if post.mapped(v) {
            let j = post.idx_of(v);
            assert(pre.pages@[j].vpn == v);
            assert(pre.mapped(v));
        }
        if pre.mapped(v) {
            let j = pre.idx_of(v);
            assert(post.pages@[j].vpn == v);
            assert(post.mapped(v));
        }
    }
    assert forall|v: int| pre.mapped(v) implies #[trigger] post.perm_at(v) == pre.perm_at(v)
        && post.idx_of(v) == pre.idx_of(v) by {
        let j = pre.idx_of(v);
        pre.lemma_idx_of(j);
        assert(post.pages@[j].vpn == v);
        post.lemma_idx_of(j);
    }
    pre.lemma_idx_of(i);
    post.lemma_idx_of(i);
    assert forall|v: int, oo: int|
        pre.mapped(v) && 0 <= oo < PAGE_SIZE
            && !(v == pre.pages@[i].vpn as int && oo == o)
            implies #[trigger] post.byte_at(v, oo) == pre.byte_at(v, oo) by {
        let j = pre.idx_of(v);
        pre.lemma_idx_of(j);
        assert(post.idx_of(v) == j);
        if j != i {
            assert(post.pages@[j] == pre.pages@[j]);
        }
    }
}

impl AddressSpace {
    /// Writes one byte of user memory, walking the page table model; refused
    /// (with nothing changed) when the page holding `addr` is unmapped or
    /// not writable.
    pub fn write_byte(&mut self, addr: usize, val: u8) -> (r: bool)
        requires
            old(self).wf(),
        ensures
            final(self).wf(),
            r == old(self).addr_writable(addr as int),
            !r ==> *final(self) == *old(self),
            r ==> write_byte_post(*old(self), *final(self), addr, val),
    {
        let vpn = addr / PAGE_SIZE;
        let off = addr % PAGE_SIZE;
        let i = match self.find_page(vpn) {
            Some(i) => i,
            None => {
                return false;
            },
        };
        proof {
            self.lemma_idx_of(i as int);
        }
        if self.pages[i].perm & 2 == 0 {
            return false;
        }
        let ghost pre = *self;
        let page = &mut self.pages[i];
        assert(page.wf());
        page.data.set(off, val);
        proof {
            lemma_update_byte_frame(pre, *self, i as int, off as int, val);
            assert(self.byte_at(pre.pages@[i as int].vpn as int, off as int) == val);
            assert(self.mem_byte(addr as int) == val);
            assert forall|b: int| pre.addr_mapped(b) && b != addr
                implies #[trigger] self.mem_byte(b) == pre.mem_byte(b) by {
                if vpn_of(b) == vpn_of(addr as int) && off_of(b) == off_of(addr as int) {
                    vstd::arithmetic::div_mod::lemma_fundamental_div_mod(b, PAGE_SIZE as int);
                    vstd::arithmetic::div_mod::lemma_fundamental_div_mod(
                        addr as int,
                        PAGE_SIZE as int,
                    );
                }
            }
        }
        true
    }

    /// Reads one byte of user memory; `None` when the page holding `addr` is
    /// unmapped or not readable.
    pub fn read_byte(&self, addr: usize) -> (r: Option<u8>)
        requires
            self.wf(),
        ensures
            match r {
                Some(b) => self.addr_readable(addr as int) && b == self.mem_byte(addr as int),
                None => !self.addr_readable(addr as int),
            },
    {
        let vpn = addr / PAGE_SIZE;
        let off = addr % PAGE_SIZE;
        match self.find_page(vpn) {
            Some(i) => {
                proof {
                    self.lemma_idx_of(i as int);
                }
                if self.pages[i].perm & 1 == 0 {
                    return None;
                }
                assert(self.pages@[i as int].wf());
                Some(self.pages[i].data[off])
            },
            None => None,
        }
    }

    /// Copies `data` into user memory at `addr`, splitting at page boundaries
    /// as the covering pages demand; refused (with nothing changed) when any
    /// byte of the destination lies on an unmapped or unwritable page.
    #[verifier::loop_isolation(false)]
    pub fn write_buffer(&mut self, addr: usize, data: &Vec<u8>) -> (r: bool)
        requires
            old(self).wf(),
            addr + data@.len() <= usize::MAX,
        ensures
            final(self).wf(),
            r == old(self).range_writable(addr as int, data@.len() as int),
            !r ==> *final(self) == *old(self),
            r ==> write_bytes_post(*old(self), *final(self), addr as int, data@),
    {
        let len = data.len();
        let mut k: usize = 0;
        while k < len
            invariant
                k <= len,
                *self == *old(self),
                forall|j: int| 0 <= j < k ==> #[trigger] self.addr_writable(addr + j),
            decreases len - k,
        {
            match self.find_page((addr + k) / PAGE_SIZE) {
                None => {
                    assert(!self.addr_writable(addr + k as int));
                    return false;
                },
                Some(pi) => {
                    proof {
                        self.lemma_idx_of(pi as int);
                    }
                    if self.pages[pi].perm & 2 == 0 {
                        assert(self.perm_at(vpn_of(addr + k as int)) & 2 == 0);
                        assert(!self.addr_writable(addr + k as int));
                        return false;
                    }
                    assert(self.addr_writable(addr + k as int));
                },
            }
            k += 1;
        }
        let ghost pre = *self;
        let mut k: usize = 0;
        while k < len
            invariant
                k <= len,
                self.wf(),
                forall|j: int| 0 <= j < len ==> #[trigger] pre.addr_writable(addr + j),
                forall|v: int| #![trigger self.mapped(v)] #![trigger pre.mapped(v)]
                    self.mapped(v) == pre.mapped(v),
                forall|v: int| pre.mapped(v) ==> #[trigger] self.perm_at(v) == pre.perm_at(v),
                forall|j: int| 0 <= j < k ==> #[trigger] self.mem_byte(addr + j) == data@[j],
                forall|b: int| #![trigger self.mem_byte(b)]
                    pre.addr_mapped(b) && !(addr <= b < addr + k)
                        ==> self.mem_byte(b) == pre.mem_byte(b),
                self.heap_bottom == pre.heap_bottom,
                self.program_break == pre.program_break,
            decreases len - k,
        {
            proof {
                assert(pre.addr_writable(addr + k as int));
                assert(self.mapped(vpn_of(addr + k as int)) == pre.mapped(vpn_of(addr + k as int)));
                assert(self.perm_at(vpn_of(addr + k as int))
                    == pre.perm_at(vpn_of(addr + k as int)));
            }
            let ghost before = *self;
            let ok = self.write_byte(addr + k, data[k]);
            assert(ok);
            proof {
                assert forall|j: int| 0 <= j <= k
                    implies #[trigger] self.mem_byte(addr + j) == data@[j] by {
                    if j < k {
                        assert(pre.addr_writable(addr + j));
                        assert(before.mapped(vpn_of(addr + j)) == pre.mapped(vpn_of(addr + j)));
                        assert(before.addr_mapped(addr + j));
                        assert(self.mem_byte(addr + j) == before.mem_byte(addr + j));
                    }
                }
                assert forall|b: int| pre.addr_mapped(b) && !(addr <= b < addr + k + 1)
                    implies #[trigger] self.mem_byte(b) == pre.mem_byte(b) by {
                    assert(before.mapped(vpn_of(b)) == pre.mapped(vpn_of(b)));
                    assert(before.addr_mapped(b));
                    assert(self.mem_byte(b) == before.mem_byte(b));
                }
            }
            k += 1;
        }
        proof {
            assert(self.mem_bytes(addr as int, data@.len() as int) =~= data@);
        }
        true
    }

    /// Reads `len` bytes of user memory starting at `addr`; `None` when any
    /// byte lies on an unmapped or unreadable page.
    #[verifier::loop_isolation(false)]
    pub fn read_bytes(&self, addr: usize, len: usize) -> (r: Option<Vec<u8>>)
        requires
            self.wf(),
            addr + len <= usize::MAX,
        ensures
            match r {
                Some(out) => self.range_readable(addr as int, len as int)
                    && out@ == self.mem_bytes(addr as int, len as int),
                None => !self.range_readable(addr as int, len as int),
            },
    {
        let mut out: Vec<u8> = Vec::new();
        let mut k: usize = 0;
        while k < len
            invariant
                k <= len,
                out@.len() == k,
                forall|j: int| 0 <= j < k ==> #[trigger] self.addr_readable(addr + j),
                forall|j: int| 0 <= j < k ==> out@[j] == #[trigger] self.mem_byte(addr + j),
            decreases len - k,
        {
            match self.read_byte(addr + k) {
                Some(b) => {
                    out.push(b);
                },
                None => {
                    assert(!self.addr_readable(addr + k as int));
                    return None;
                },
            }
            k += 1;
        }
        proof {
            assert(out@ =~= self.mem_bytes(addr as int, len as int));
        }
        Some(out)
    }
}

impl AddressSpace {
    /// `n` is where the null-terminated string starting at `addr` ends: every
    /// byte before it is on a readable page and not zero, and the byte at
    /// `addr + n` is a readable zero.
    pub open spec fn is_cstr_end(self, addr: int, n: int) -> bool {
        &&& 0 <= n
        &&& addr + n <= usize::MAX
        &&& forall|k: int| #![trigger self.mem_byte(addr + k)] #![trigger self.addr_readable(addr + k)]
            0 <= k < n ==> self.addr_readable(addr + k) && self.mem_byte(addr + k) != 0
        &&& self.addr_readable(addr + n)
        &&& self.mem_byte(addr + n) == 0
    }

    /// A well-formed null-terminated string starts at `addr`.
    pub open spec fn has_cstr(self, addr: int) -> bool {
        exists|n: int| self.is_cstr_end(addr, n)
    }

    /// Length of the null-terminated string at `addr`, terminator excluded.
    pub open spec fn cstr_len(self, addr: int) -> int {
        choose|n: int| self.is_cstr_end(addr, n)
    }

    /// The bytes of the null-terminated string at `addr`, terminator excluded.
    pub open spec fn cstr(self, addr: int) -> Seq<u8> {
        self.mem_bytes(addr, self.cstr_len(addr))
    }

    /// A string has only one end.
    pub proof fn lemma_cstr_end_unique(self, addr: int, n1: int, n2: int)
        requires
            self.is_cstr_end(addr, n1),
            self.is_cstr_end(addr, n2),
        ensures
            n1 == n2,
    {
        if n1 < n2 {
            assert(self.mem_byte(addr + n1) != 0);
        }
        if n2 < n1 {
            assert(self.mem_byte(addr + n2) != 0);
        }
    }

    /// Reads the null-terminated string starting at `addr`, walking across
    /// page boundaries, stopping at and excluding the first zero byte; `None`
    /// when an unmapped or unreadable page is hit first (or the address
    /// range ends) — there is then no well-formed string at `addr`.
    #[verifier::loop_isolation(false)]
    pub fn translated_str(&self, addr: usize) -> (r: Option<Vec<u8>>)
        requires
            self.wf(),
        ensures
            match r {
                Some(s) => self.has_cstr(addr as int) && s@ == self.cstr(addr as int),
                None => !self.has_cstr(addr as int),
            },
    {
        let mut out: Vec<u8> = Vec::new();
        let mut cur = addr;
        loop
            invariant
                addr <= cur,
                cur - addr == out@.len(),
                forall|k: int| #![trigger self.mem_byte(addr + k)] #![trigger self.addr_readable(addr + k)]
                    0 <= k < out@.len()
                        ==> self.addr_readable(addr + k) && self.mem_byte(addr + k) != 0
                            && out@[k] == self.mem_byte(addr + k),
            decreases usize::MAX - cur,
        {
            match self.read_byte(cur) {
                None => {
                    proof {
                        assert forall|n: int| !self.is_cstr_end(addr as int, n) by {
                            if self.is_cstr_end(addr as int, n) {
                                let done: int = cur - addr;
                                if n < done {
                                    assert(self.mem_byte(addr + n) != 0);
                                } else {
                                    assert(self.addr_readable(addr + done));
                                }
                            }
                        }
                    }
                    return None;
                },
                Some(b) => {
                    if b == 0 {
                        proof {
                            let done: int = cur - addr;
                            assert(self.is_cstr_end(addr as int, done));
                            self.lemma_cstr_end_unique(
                                addr as int,
                                done,
                                self.cstr_len(addr as int),
                            );
                            assert(out@ =~= self.cstr(addr as int));
                        }
                        return Some(out);
                    }
                    if cur == usize::MAX {
                        proof {
                            assert forall|n: int| !self.is_cstr_end(addr as int, n) by {
                                if self.is_cstr_end(addr as int, n) {
                                    let done: int = cur - addr;
                                    if n < done {
                                        assert(self.mem_byte(addr + n) != 0);
                                    } else {
                                        assert(n == done);
                                        assert(self.mem_byte(addr + n) == b);
                                    }
                                }
                            }
                        }
                        return None;
                    }
                    out.push(b);
                    cur += 1;
                },
            }
        }
    }

    /// An independently owned copy of this address space, as fork gives the
    /// child: same mapped pages, permissions, contents and heap bounds, with
    /// no storage shared.
    #[verifier::loop_isolation(false)]
    pub fn duplicate(&self) -> (r: AddressSpace)
        requires
            self.wf(),
        ensures
            r.wf(),
            same_view(*self, r),
    {
        let mut pages: Vec<MappedPage> = Vec::new();
        let n = self.pages.len();
        for i in 0..n
            invariant
                pages@.len() == i,
                forall|j: int| 0 <= j < i ==> (#[trigger] pages@[j]).vpn == self.pages@[j].vpn
                    && pages@[j].perm == self.pages@[j].perm
                    && pages@[j].data@ == self.pages@[j].data@,
        {
            let src = &self.pages[i];
            let mut data: Vec<u8> = Vec::new();
            let m = src.data.len();
            for o in 0..m
                invariant
                    data@.len() == o,
                    forall|q: int| 0 <= q < o ==> data@[q] == src.data@[q],
            {
                data.push(src.data[o]);
            }
            proof {
                assert(data@ =~= src.data@);
            }
            pages.push(MappedPage { vpn: src.vpn, perm: src.perm, data });
        }
        let r = AddressSpace {
            pages,
            heap_bottom: self.heap_bottom,
            program_break: self.program_break,
        };
        proof {
            assert forall|v: int| #![trigger self.mapped(v)] #![trigger r.mapped(v)]
                r.mapped(v) == self.mapped(v) by {
                if r.mapped(v) {
                    let j = r.idx_of(v);
                    assert(self.pages@[j].vpn == v);
                    assert(self.mapped(v));
                }
                if self.mapped(v) {
                    let j = self.idx_of(v);
                    assert(r.pages@[j].vpn == v);
                    assert(r.mapped(v));
                }
            }
            assert(r.wf());
            assert forall|v: int| self.mapped(v)
                implies #[trigger] self.perm_at(v) == r.perm_at(v)
                    && self.idx_of(v) == r.idx_of(v) by {
                let j = self.idx_of(v);
                self.lemma_idx_of(j);
                assert(r.pages@[j].vpn == v);
                r.lemma_idx_of(j);
            }
        }
        r
    }
}

/// Mapping a fresh, disjoint, page-aligned range and then unmapping the very
/// same range succeeds both times and leaves the set of mapped pages — their
/// permissions and contents included — exactly as it began.
pub proof fn lemma_mmap_munmap_roundtrip(
    pre: AddressSpace,
    mid: AddressSpace,
    post: AddressSpace,
    start: usize,
    len: usize,
    port: usize,
)
    requires
        page_aligned(start as int),
        port_valid(port),
        len > 0,
        start + len <= usize::MAX,
        forall|v: int| range_lo(start) <= v < range_hi(start, len) ==> !pre.mapped(v),
        !heap_overlap(pre, start, len),
        mmap_post(pre, mid, start, len, port),
        munmap_post(mid, post, start, len),
    ensures
        mmap_accepts(pre, start, len, port),
        munmap_accepts(mid, start, len),
        same_view(pre, post),
{
}

/// Mapping a range that touches any already-mapped page is refused, as is
/// unmapping a range any page of which is unmapped.
pub proof fn lemma_overlap_refused(s: AddressSpace, start: usize, len: usize, port: usize, v: int)
    requires
        len > 0,
        range_lo(start) <= v < range_hi(start, len),
    ensures
        s.mapped(v) ==> !mmap_accepts(s, start, len, port),
        !s.mapped(v) ==> !munmap_accepts(s, start, len),
{
}

/// With a zero length, mmap (for any valid port) and munmap both succeed as
/// no-ops on any aligned start.
pub proof fn lemma_zero_len_noop(s: AddressSpace, start: usize, port: usize)
    requires
        page_aligned(start as int),
        port_valid(port),
    ensures
        mmap_accepts(s, start, 0, port),
        munmap_accepts(s, start, 0),
        forall|post: AddressSpace| mmap_post(s, post, start, 0, port) ==> same_view(s, post),
        forall|post: AddressSpace| munmap_post(s, post, start, 0) ==> same_view(s, post),
{
    assert forall|post: AddressSpace| mmap_post(s, post, start, 0, port)
        implies same_view(s, post) by {
        assert forall|v: int, o: int| s.mapped(v) && 0 <= o < PAGE_SIZE
            implies s.byte_at(v, o) == post.byte_at(v, o) by {
            assert(post.byte_at(v, o) == s.byte_at(v, o));
        }
    }
    assert forall|post: AddressSpace| munmap_post(s, post, start, 0)
        implies same_view(s, post) by {
        assert forall|v: int, o: int| s.mapped(v) && 0 <= o < PAGE_SIZE
            implies s.byte_at(v, o) == post.byte_at(v, o) by {
            assert(post.mapped(v));
            assert(post.byte_at(v, o) == s.byte_at(v, o));
        }
    }
}

/// A port with any bit above bit2 set, or with no permission bit set, is
/// refused whatever the rest of the arguments say.
pub proof fn lemma_bad_port_refused(s: AddressSpace, start: usize, len: usize, port: usize)
    requires
        port & !0x7 != 0 || port & 0x7 == 0,
    ensures
        !mmap_accepts(s, start, len, port),
{
}

} // verus!
