//! Process management syscalls.
//!
//! Each function here is the deciding part of a system call. The kernel
//! gives it what its services report (the clock, a page-table entry, the
//! outcome of a mapping) and carries out the plan it returns.
use crate::syscall::{ProtFlags, PAGE_SIZE};
use vstd::prelude::*;

verus! {

/// Time in seconds and microseconds.
#[derive(Clone, Copy, Debug, PartialEq, Eq, Structural)]
pub struct TimeVal {
    pub sec: usize,
    pub usec: usize,
}

/// What `sys_yield` answers once the current task runs again.
pub fn sys_yield() -> (r: isize)
    ensures
        r == 0,
{
    0
}

/// The time of day for a clock reading of `usec` microseconds.
pub fn sys_get_time(usec: usize) -> (tv: TimeVal)
    ensures
        tv.sec == usec / 1_000_000,
        tv.usec == usec % 1_000_000,
        tv.sec * 1_000_000 + tv.usec == usec,
        tv.usec < 1_000_000,
{
    let sec: usize = usec / 1_000_000;
    let rem: usize = usec % 1_000_000;
    TimeVal { sec, usec: rem }
}

/// `sys_trace` request: read a byte of user memory.
pub const REQ_READ: usize = 0;
/// `sys_trace` request: write a byte of user memory.
pub const REQ_WRITE: usize = 1;
/// `sys_trace` request: how often a system call was made.
pub const REQ_COUNT: usize = 2;

/// What the page table holds for a virtual page.
#[derive(Clone, Copy, Debug, PartialEq, Eq, Structural)]
pub struct PteInfo {
    /// physical page number
    pub ppn: usize,
    pub user: bool,
    pub readable: bool,
    pub writable: bool,
}

/// What the kernel does for a `sys_trace` call.
#[derive(Clone, Copy, Debug, PartialEq, Eq, Structural)]
pub enum TraceAction {
    /// Read the byte at physical address `pa` and answer it.
    ReadByte { pa: usize },
    /// Write `value` at physical address `pa` and answer 0.
    WriteByte { pa: usize, value: u8 },
    /// Answer how often system call `id` was made.
    CountSyscall { id: usize },
    /// Answer -1.
    Fail,
}

/// The physical address of virtual address `va` on physical page `ppn`.
pub open spec fn phys_addr(ppn: usize, va: usize) -> usize {
    (ppn << 12usize) | (va & 0xfff)
}

/// The plan for `sys_trace(trace_request, id, data)` when the page of `id`
/// maps as `pte` says.
pub open spec fn trace_plan(trace_request: usize, id: usize, data: usize, pte: Option<PteInfo>) -> TraceAction {
    if trace_request == REQ_READ {
        match pte {
            Some(p) => if p.user && p.readable {
                TraceAction::ReadByte { pa: phys_addr(p.ppn, id) }
            } else {
                TraceAction::Fail
            },
            None => TraceAction::Fail,
        }
    } else if trace_request == REQ_WRITE {
        match pte {
            Some(p) => if p.user && p.writable {
                TraceAction::WriteByte { pa: phys_addr(p.ppn, id), value: data as u8 }
            } else {
                TraceAction::Fail
            },
            None => TraceAction::Fail,
        }
    } else if trace_request == REQ_COUNT {
        TraceAction::CountSyscall { id }
    } else {
        TraceAction::Fail
    }
}

/// Plans `sys_trace(trace_request, id, data)`; `pte` is what the page table
/// holds for the page of address `id`, if anything.
pub fn sys_trace(trace_request: usize, id: usize, data: usize, pte: Option<PteInfo>) -> (a: TraceAction)
    ensures
        a == trace_plan(trace_request, id, data, pte),
{
    if trace_request == REQ_READ {
        match pte {
            Some(p) => if p.user && p.readable {
                TraceAction::ReadByte { pa: (p.ppn << 12usize) | (id & 0xfff) }
            } else {
                TraceAction::Fail
            },
            None => TraceAction::Fail,
        }
    } else if trace_request == REQ_WRITE {
        match pte {
            Some(p) => if p.user && p.writable {
                TraceAction::WriteByte { pa: (p.ppn << 12usize) | (id & 0xfff), value: data as u8 }
            } else {
                TraceAction::Fail
            },
            None => TraceAction::Fail,
        }
    } else if trace_request == REQ_COUNT {
        TraceAction::CountSyscall { id }
    } else {
        TraceAction::Fail
    }
}

/// On a page that the user may read and write, a traced write and a
/// traced read of the same address reach the same physical byte, and the
/// write stores the low byte of `data`.
pub proof fn lemma_trace_write_then_read(id: usize, data: usize, x: usize, p: PteInfo)
    requires
        p.user,
        p.readable,
        p.writable,
    ensures
        trace_plan(REQ_WRITE, id, data, Some(p)) matches TraceAction::WriteByte { pa: w, value }
            && trace_plan(REQ_READ, id, x, Some(p)) matches TraceAction::ReadByte { pa: r }
            && w == r && value == data % 256,
{
    assert((data as u8) == data % 256) by (bit_vector);
}

/// What the kernel does for an `mmap` or `munmap` call.
#[derive(Clone, Copy, Debug, PartialEq, Eq, Structural)]
pub enum MapPlan {
    /// Answer this value at once.
    Answer(isize),
    /// Map framed pages over the addresses `start..end` with `prot`, then
    /// answer [`map_outcome`] of whether that worked.
    MapFramed { start: usize, end: usize, prot: ProtFlags },
    /// Unmap `npages` pages from address `start`, then answer
    /// [`map_outcome`] of whether that worked.
    Unmap { start: usize, npages: usize },
}

/// `prot` names at least one permission and nothing else.
pub open spec fn prot_valid(prot: usize) -> bool {
    prot & 0b111 != 0 && prot & !0b111usize == 0
}

/// The checks of `mmap` pass, so `start + len` is computed.
pub open spec fn mmap_reaches_range(start: usize, len: usize, prot: usize) -> bool {
    len != 0 && start % 4096 == 0 && prot_valid(prot)
}

/// The plan for `mmap(start, len, prot)`.
pub open spec fn sys_mmap_plan(start: usize, len: usize, prot: usize) -> MapPlan {
    if len == 0 {
        MapPlan::Answer(0isize)
    } else if start % 4096 != 0 || !prot_valid(prot) {
        MapPlan::Answer(-1isize)
    } else {
        MapPlan::MapFramed { start, end: (start + len) as usize, prot: ProtFlags { bits: prot & 0b111 } }
    }
}

/// Plans `mmap(start, len, prot)`: a zero length succeeds at once, a start
/// that is not page-aligned or a `prot` with no permission or unknown bits
/// is refused, and otherwise the pages over `start..start + len` are mapped.
pub fn sys_mmap(start: usize, len: usize, prot: usize) -> (plan: MapPlan)
    requires
        mmap_reaches_range(start, len, prot) ==> start + len <= usize::MAX,
    ensures
        plan == (if len == 0 {
            MapPlan::Answer(0isize)
        } else if start % 4096 != 0 || !prot_valid(prot) {
            MapPlan::Answer(-1isize)
        } else {
            MapPlan::MapFramed { start, end: (start + len) as usize, prot: ProtFlags { bits: prot & 0b111 } }
        }),
{
    if len == 0 {
        return MapPlan::Answer(0);
    }
    if start % 4096 != 0 {
        return MapPlan::Answer(-1);
    }
    if prot & 0b111 == 0 || prot & !0b111usize != 0 {
        return MapPlan::Answer(-1);
    }
    let flags = ProtFlags::from_bits_truncate(prot);
    MapPlan::MapFramed { start, end: start + len, prot: flags }
}

/// The checks of `munmap` pass, so the page count is computed.
pub open spec fn munmap_reaches_count(start: usize, len: usize) -> bool {
    len != 0 && start % 4096 == 0
}

/// The plan for `munmap(start, len)`.
pub open spec fn sys_munmap_plan(start: usize, len: usize) -> MapPlan {
    if len == 0 {
        MapPlan::Answer(0isize)
    } else if start % 4096 != 0 {
        MapPlan::Answer(-1isize)
    } else {
        MapPlan::Unmap { start, npages: ((len + PAGE_SIZE - 1) / PAGE_SIZE as int) as usize }
    }
}

/// Plans `munmap(start, len)`: a zero length succeeds at once, a start that
/// is not page-aligned is refused, and otherwise the pages that cover
/// `len` bytes from `start` are unmapped.
pub fn sys_munmap(start: usize, len: usize) -> (plan: MapPlan)
    requires
        munmap_reaches_count(start, len) ==> len + PAGE_SIZE <= usize::MAX,
    ensures
        plan == (if len == 0 {
            MapPlan::Answer(0isize)
        } else if start % 4096 != 0 {
            MapPlan::Answer(-1isize)
        } else {
            MapPlan::Unmap { start, npages: ((len + PAGE_SIZE - 1) / PAGE_SIZE as int) as usize }
        }),
        plan matches MapPlan::Unmap { npages, .. } ==> {
            &&& npages * PAGE_SIZE >= len
            &&& npages * PAGE_SIZE < len + PAGE_SIZE
        },
{
    if len == 0 {
        return MapPlan::Answer(0);
    }
    if start % 4096 != 0 {
        return MapPlan::Answer(-1);
    }
    let npages: usize = (len + PAGE_SIZE - 1) / PAGE_SIZE;
    proof {
        lemma_page_count(len as int, npages as int);
    }
    MapPlan::Unmap { start, npages }
}

/// `(len + 4095) / 4096` pages cover `len` bytes, with less than a page
/// to spare.
proof fn lemma_page_count(len: int, npages: int)
    requires
        len >= 0,
        npages == (len + 4095) / 4096,
    ensures
        npages * 4096 >= len,
        npages * 4096 < len + 4096,
{
    assert(npages * 4096 >= len && npages * 4096 < len + 4096) by (nonlinear_arith)
        requires
            len >= 0,
            npages == (len + 4095) / 4096,
    ;
}

/// The page that holds address `addr`.
pub open spec fn page_floor(addr: int) -> int {
    addr / PAGE_SIZE as int
}

/// The first page boundary at or above `addr`, as a page number.
pub open spec fn page_ceil(addr: int) -> int {
    (addr + PAGE_SIZE - 1) / PAGE_SIZE as int
}

/// For the same accepted `start` and `len`, the pages that `mmap` maps,
/// from the page of `start` up to the page boundary at or above
/// `start + len`, are the pages that `munmap` unmaps: as many pages from
/// the page of `start` as it counts.
pub proof fn lemma_mmap_munmap_same_pages(start: usize, len: usize, prot: usize)
    requires
        mmap_reaches_range(start, len, prot),
        start + len <= usize::MAX,
        len + PAGE_SIZE <= usize::MAX,
    ensures
        sys_mmap_plan(start, len, prot) matches MapPlan::MapFramed { start: ms, end: me, .. }
            && sys_munmap_plan(start, len) matches MapPlan::Unmap { start: us, npages }
            && ms == us && page_floor(ms as int) == page_floor(us as int)
            && page_ceil(me as int) == page_floor(us as int) + npages,
{
    let k = start as int / 4096;
    assert(start as int == 4096 * k);
    let q = (len as int + 4095) / 4096;
    assert((4096 * k + len as int + 4095) / 4096 == k + q) by (nonlinear_arith)
        requires
            q == (len as int + 4095) / 4096,
            len >= 0,
    {
        assert(4096 * k + len as int + 4095 == 4096 * k + (len as int + 4095));
    }
}

/// What `mmap` and `munmap` answer once the kernel has tried the mapping
/// change: 0 if it worked, -1 if it did not.
pub fn map_outcome(done: bool) -> (r: isize)
    ensures
        r == (if done { 0isize } else { -1isize }),
{
    if done {
        0
    } else {
        -1
    }
}

/// What `sbrk` answers, given the break before the change when the
/// change worked: that break as a signed number, or -1.
pub fn sys_sbrk(old_brk: Option<usize>) -> (r: isize)
    ensures
        r == (match old_brk {
            Some(b) => b as isize,
            None => -1isize,
        }),
{
    match old_brk {
        Some(b) => b as isize,
        None => -1,
    }
}

} // verus!
