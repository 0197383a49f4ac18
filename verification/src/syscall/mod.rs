//! Implementation of syscalls.
//!
//! The single entry point, [`syscall`], turns a system-call number and its
//! raw arguments into a [`SyscallRequest`] that names the call and carries
//! its decoded arguments.
pub mod process;

use vstd::prelude::*;

verus! {

/// unlinkat syscall
pub const SYSCALL_UNLINKAT: usize = 35;
/// linkat syscall
pub const SYSCALL_LINKAT: usize = 37;
/// open syscall
pub const SYSCALL_OPEN: usize = 56;
/// close syscall
pub const SYSCALL_CLOSE: usize = 57;
/// read syscall
pub const SYSCALL_READ: usize = 63;
/// write syscall
pub const SYSCALL_WRITE: usize = 64;
/// fstat syscall
pub const SYSCALL_FSTAT: usize = 80;
/// exit syscall
pub const SYSCALL_EXIT: usize = 93;
/// yield syscall
pub const SYSCALL_YIELD: usize = 124;
/// setpriority syscall
pub const SYSCALL_SET_PRIORITY: usize = 140;
/// gettime syscall
pub const SYSCALL_GET_TIME: usize = 169;
/// getpid syscall
pub const SYSCALL_GETPID: usize = 172;
/// sbrk syscall
pub const SYSCALL_SBRK: usize = 214;
/// munmap syscall
pub const SYSCALL_MUNMAP: usize = 215;
/// fork syscall
pub const SYSCALL_FORK: usize = 220;
/// exec syscall
pub const SYSCALL_EXEC: usize = 221;
/// mmap syscall
pub const SYSCALL_MMAP: usize = 222;
/// waitpid syscall
pub const SYSCALL_WAITPID: usize = 260;
/// spawn syscall
pub const SYSCALL_SPAWN: usize = 400;

/// Size of a page in bytes.
pub const PAGE_SIZE: usize = 4096;

/// Memory protection flags, used in the `mmap` syscall.
#[derive(Clone, Copy, Debug, PartialEq, Eq, Structural)]
pub struct ProtFlags {
    pub bits: usize,
}

/// No permissions.
pub const PROT_NONE: usize = 0;
/// Pages can be read.
pub const PROT_READ: usize = 1;
/// Pages can be written.
pub const PROT_WRITE: usize = 2;
/// Pages can be executed.
pub const PROT_EXEC: usize = 4;

impl ProtFlags {
    /// The flags among `bits`; bits that name no flag are dropped.
    pub fn from_bits_truncate(bits: usize) -> (f: Self)
        ensures
            f.bits == bits & 0b111,
    {
        ProtFlags { bits: bits & 0b111 }
    }
}

/// A system call with its decoded arguments. Addresses in user space are
/// kept as numbers.
#[derive(Clone, Copy, Debug, PartialEq, Eq, Structural)]
pub enum SyscallRequest {
    Open { path: usize, flags: u32 },
    Close { fd: usize },
    Linkat { old_name: usize, new_name: usize },
    Unlinkat { name: usize },
    Read { fd: usize, buf: usize, len: usize },
    Write { fd: usize, buf: usize, len: usize },
    Fstat { fd: usize, st: usize },
    Exit { exit_code: i32 },
    Yield,
    GetPid,
    Fork,
    Exec { path: usize },
    Waitpid { pid: isize, exit_code_ptr: usize },
    GetTime { ts: usize, tz: usize },
    Mmap { start: usize, len: usize, prot: usize },
    Munmap { start: usize, len: usize },
    Sbrk { size: i32 },
    Spawn { path: usize },
    SetPriority { prio: isize },
}

/// The system-call numbers that [`syscall`] knows.
pub open spec fn is_supported(syscall_id: usize) -> bool {
    ||| syscall_id == SYSCALL_OPEN
    ||| syscall_id == SYSCALL_CLOSE
    ||| syscall_id == SYSCALL_LINKAT
    ||| syscall_id == SYSCALL_UNLINKAT
    ||| syscall_id == SYSCALL_READ
    ||| syscall_id == SYSCALL_WRITE
    ||| syscall_id == SYSCALL_FSTAT
    ||| syscall_id == SYSCALL_EXIT
    ||| syscall_id == SYSCALL_YIELD
    ||| syscall_id == SYSCALL_GETPID
    ||| syscall_id == SYSCALL_FORK
    ||| syscall_id == SYSCALL_EXEC
    ||| syscall_id == SYSCALL_WAITPID
    ||| syscall_id == SYSCALL_GET_TIME
    ||| syscall_id == SYSCALL_MMAP
    ||| syscall_id == SYSCALL_MUNMAP
    ||| syscall_id == SYSCALL_SBRK
    ||| syscall_id == SYSCALL_SPAWN
    ||| syscall_id == SYSCALL_SET_PRIORITY
}

/// The request that system call `syscall_id` with raw arguments `args`
/// stands for.
pub open spec fn decoded(syscall_id: usize, args: Seq<usize>) -> SyscallRequest {
    if syscall_id == SYSCALL_OPEN {
        SyscallRequest::Open { path: args[1], flags: args[2] as u32 }
    } else if syscall_id == SYSCALL_CLOSE {
        SyscallRequest::Close { fd: args[0] }
    } else if syscall_id == SYSCALL_LINKAT {
        SyscallRequest::Linkat { old_name: args[1], new_name: args[3] }
    } else if syscall_id == SYSCALL_UNLINKAT {
        SyscallRequest::Unlinkat { name: args[1] }
    } else if syscall_id == SYSCALL_READ {
        SyscallRequest::Read { fd: args[0], buf: args[1], len: args[2] }
    } else if syscall_id == SYSCALL_WRITE {
        SyscallRequest::Write { fd: args[0], buf: args[1], len: args[2] }
    } else if syscall_id == SYSCALL_FSTAT {
        SyscallRequest::Fstat { fd: args[0], st: args[1] }
    } else if syscall_id == SYSCALL_EXIT {
        SyscallRequest::Exit { exit_code: args[0] as i32 }
    } else if syscall_id == SYSCALL_YIELD {
        SyscallRequest::Yield
    } else if syscall_id == SYSCALL_GETPID {
        SyscallRequest::GetPid
    } else if syscall_id == SYSCALL_FORK {
        SyscallRequest::Fork
    } else if syscall_id == SYSCALL_EXEC {
        SyscallRequest::Exec { path: args[0] }
    } else if syscall_id == SYSCALL_WAITPID {
        SyscallRequest::Waitpid { pid: args[0] as isize, exit_code_ptr: args[1] }
    } else if syscall_id == SYSCALL_GET_TIME {
        SyscallRequest::GetTime { ts: args[0], tz: args[1] }
    } else if syscall_id == SYSCALL_MMAP {
        SyscallRequest::Mmap { start: args[0], len: args[1], prot: args[2] }
    } else if syscall_id == SYSCALL_MUNMAP {
        SyscallRequest::Munmap { start: args[0], len: args[1] }
    } else if syscall_id == SYSCALL_SBRK {
        SyscallRequest::Sbrk { size: args[0] as i32 }
    } else if syscall_id == SYSCALL_SPAWN {
        SyscallRequest::Spawn { path: args[0] }
    } else {
        SyscallRequest::SetPriority { prio: args[0] as isize }
    }
}

/// Decodes system call `syscall_id` with arguments `args`; the number must
/// be one the kernel supports.
pub fn syscall(syscall_id: usize, args: [usize; 4]) -> (req: SyscallRequest)
    requires
        is_supported(syscall_id),
    ensures
        req == decoded(syscall_id, args@),
{
    match syscall_id {
        SYSCALL_OPEN => SyscallRequest::Open { path: args[1], flags: args[2] as u32 },
        SYSCALL_CLOSE => SyscallRequest::Close { fd: args[0] },
        SYSCALL_LINKAT => SyscallRequest::Linkat { old_name: args[1], new_name: args[3] },
        SYSCALL_UNLINKAT => SyscallRequest::Unlinkat { name: args[1] },
        SYSCALL_READ => SyscallRequest::Read { fd: args[0], buf: args[1], len: args[2] },
        SYSCALL_WRITE => SyscallRequest::Write { fd: args[0], buf: args[1], len: args[2] },
        SYSCALL_FSTAT => SyscallRequest::Fstat { fd: args[0], st: args[1] },
        SYSCALL_EXIT => SyscallRequest::Exit { exit_code: args[0] as i32 },
        SYSCALL_YIELD => SyscallRequest::Yield,
        SYSCALL_GETPID => SyscallRequest::GetPid,
        SYSCALL_FORK => SyscallRequest::Fork,
        SYSCALL_EXEC => SyscallRequest::Exec { path: args[0] },
        SYSCALL_WAITPID => SyscallRequest::Waitpid { pid: args[0] as isize, exit_code_ptr: args[1] },
        SYSCALL_GET_TIME => SyscallRequest::GetTime { ts: args[0], tz: args[1] },
        SYSCALL_MMAP => SyscallRequest::Mmap { start: args[0], len: args[1], prot: args[2] },
        SYSCALL_MUNMAP => SyscallRequest::Munmap { start: args[0], len: args[1] },
        SYSCALL_SBRK => SyscallRequest::Sbrk { size: args[0] as i32 },
        SYSCALL_SPAWN => SyscallRequest::Spawn { path: args[0] },
        _ => SyscallRequest::SetPriority { prio: args[0] as isize },
    }
}

/// The total length of the first `n` of `bufs`.
pub open spec fn lens_before(bufs: Seq<Vec<u8>>, n: int) -> int
    decreases n,
{
    if n <= 0 || n > bufs.len() {
        0
    } else {
        lens_before(bufs, n - 1) + bufs[n - 1].len()
    }
}

/// Prefix lengths grow with the prefix.
proof fn lemma_lens_before_grow(bufs: Seq<Vec<u8>>, i: int, j: int)
    requires
        0 <= i <= j <= bufs.len(),
    ensures
        lens_before(bufs, i) <= lens_before(bufs, j),
    decreases j - i,
{
    if i < j {
        lemma_lens_before_grow(bufs, i, j - 1);
    }
}

/// Copies `src` into the user buffers that a value smaller than two pages
/// is written to, one buffer per page that the destination touches: each
/// buffer takes the bytes of `src` that follow those of the buffers before
/// it.
pub fn write_small_data(src: &[u8], buffers: &mut Vec<Vec<u8>>)
    requires
        src.len() < PAGE_SIZE * 2,
        lens_before(old(buffers)@, old(buffers)@.len() as int) == src.len(),
    ensures
        final(buffers).len() == old(buffers).len(),
        forall|i: int|
            0 <= i < final(buffers).len() ==> #[trigger] final(buffers)@[i]@ == src@.subrange(
                lens_before(old(buffers)@, i),
                lens_before(old(buffers)@, i + 1),
            ),
{
    let ghost bufs = buffers@;
    let mut offset: usize = 0;
    let mut i: usize = 0;
    while i < buffers.len()
        invariant
            buffers.len() == bufs.len(),
            i <= bufs.len(),
            offset == lens_before(bufs, i as int),
            lens_before(bufs, bufs.len() as int) == src.len(),
            forall|j: int| i <= j < bufs.len() ==> #[trigger] buffers@[j] == bufs[j],
            forall|j: int|
                0 <= j < i ==> #[trigger] buffers@[j]@ == src@.subrange(lens_before(bufs, j), lens_before(bufs, j + 1)),
        decreases bufs.len() - i,
    {
        proof {
            lemma_lens_before_grow(bufs, i + 1, bufs.len() as int);
        }
        let end: usize = offset + buffers[i].len();
        let part = copy_range(src, offset, end);
        buffers.set(i, part);
        offset = end;
        i = i + 1;
    }
}

/// The bytes of `src` from `lo` up to `hi`.
fn copy_range(src: &[u8], lo: usize, hi: usize) -> (out: Vec<u8>)
    requires
        lo <= hi <= src.len(),
    ensures
        out@ == src@.subrange(lo as int, hi as int),
{
    let mut out: Vec<u8> = Vec::new();
    let mut i: usize = lo;
    while i < hi
        invariant
            lo <= i <= hi <= src.len(),
            out@ == src@.subrange(lo as int, i as int),
        decreases hi - i,
    {
        out.push(src[i]);
        i = i + 1;
    }
    out
}

} // verus!
