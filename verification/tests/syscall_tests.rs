use lib::syscall::process::{
    map_outcome, sys_get_time, sys_mmap, sys_munmap, sys_sbrk, sys_trace, sys_yield, MapPlan, PteInfo,
    TraceAction, REQ_COUNT, REQ_READ, REQ_WRITE,
};
use lib::syscall::{syscall, write_small_data, ProtFlags, SyscallRequest, SYSCALL_EXIT, SYSCALL_GET_TIME,
    SYSCALL_LINKAT, SYSCALL_MMAP, SYSCALL_OPEN, SYSCALL_SET_PRIORITY, SYSCALL_WAITPID, SYSCALL_YIELD};

#[test]
fn syscall_decodes_arguments() {
    assert_eq!(syscall(SYSCALL_OPEN, [9, 0x1000, 0x1_0000_0005, 0]), SyscallRequest::Open { path: 0x1000, flags: 5 });
    assert_eq!(syscall(SYSCALL_LINKAT, [0, 11, 0, 13]), SyscallRequest::Linkat { old_name: 11, new_name: 13 });
    assert_eq!(syscall(SYSCALL_EXIT, [usize::MAX, 0, 0, 0]), SyscallRequest::Exit { exit_code: -1 });
    assert_eq!(syscall(SYSCALL_WAITPID, [usize::MAX, 40, 0, 0]), SyscallRequest::Waitpid { pid: -1, exit_code_ptr: 40 });
    assert_eq!(syscall(SYSCALL_YIELD, [1, 2, 3, 4]), SyscallRequest::Yield);
    assert_eq!(syscall(SYSCALL_GET_TIME, [100, 0, 0, 0]), SyscallRequest::GetTime { ts: 100, tz: 0 });
    assert_eq!(syscall(SYSCALL_MMAP, [4096, 10, 3, 0]), SyscallRequest::Mmap { start: 4096, len: 10, prot: 3 });
    assert_eq!(syscall(SYSCALL_SET_PRIORITY, [16, 0, 0, 0]), SyscallRequest::SetPriority { prio: 16 });
}

#[test]
fn write_small_data_fills_one_buffer() {
    let mut buffers = vec![vec![0u8; 4]];
    write_small_data(&[1, 2, 3, 4], &mut buffers);
    assert_eq!(buffers, vec![vec![1, 2, 3, 4]]);
}

#[test]
fn write_small_data_splits_across_two_buffers() {
    let mut buffers = vec![vec![0u8; 3], vec![0u8; 5]];
    write_small_data(&[1, 2, 3, 4, 5, 6, 7, 8], &mut buffers);
    assert_eq!(buffers, vec![vec![1, 2, 3], vec![4, 5, 6, 7, 8]]);
}

#[test]
fn write_small_data_spans_three_pages() {
    let src: Vec<u8> = (0..6000u32).map(|x| (x % 251) as u8).collect();
    let mut buffers = vec![vec![0u8; 1], vec![0u8; 4096], vec![0u8; 1903]];
    write_small_data(&src, &mut buffers);
    assert_eq!(buffers[0], src[0..1].to_vec());
    assert_eq!(buffers[1], src[1..4097].to_vec());
    assert_eq!(buffers[2], src[4097..6000].to_vec());
}

#[test]
fn get_time_splits_microseconds() {
    let tv = sys_get_time(3_500_042);
    assert_eq!((tv.sec, tv.usec), (3, 500_042));
    let tv = sys_get_time(999_999);
    assert_eq!((tv.sec, tv.usec), (0, 999_999));
}

#[test]
fn yield_answers_zero() {
    assert_eq!(sys_yield(), 0);
}

fn pte(user: bool, readable: bool, writable: bool) -> Option<PteInfo> {
    Some(PteInfo { ppn: 0x80, user, readable, writable })
}

#[test]
fn trace_reads_and_writes_user_bytes() {
    assert_eq!(sys_trace(REQ_READ, 0x1234, 0, pte(true, true, false)), TraceAction::ReadByte { pa: 0x80234 });
    assert_eq!(sys_trace(REQ_WRITE, 0x1fff, 0x1ab, pte(true, false, true)), TraceAction::WriteByte { pa: 0x80fff, value: 0xab });
}

#[test]
fn trace_refuses_what_the_page_does_not_allow() {
    assert_eq!(sys_trace(REQ_READ, 0x1234, 0, pte(false, true, true)), TraceAction::Fail);
    assert_eq!(sys_trace(REQ_READ, 0x1234, 0, pte(true, false, true)), TraceAction::Fail);
    assert_eq!(sys_trace(REQ_WRITE, 0x1234, 0, pte(true, true, false)), TraceAction::Fail);
    assert_eq!(sys_trace(REQ_READ, 0x1234, 0, None), TraceAction::Fail);
    assert_eq!(sys_trace(7, 0x1234, 0, pte(true, true, true)), TraceAction::Fail);
}

#[test]
fn trace_counts_syscalls() {
    assert_eq!(sys_trace(REQ_COUNT, 64, 0, None), TraceAction::CountSyscall { id: 64 });
}

#[test]
fn mmap_checks_its_arguments() {
    assert_eq!(sys_mmap(4096, 0, 0), MapPlan::Answer(0));
    assert_eq!(sys_mmap(4097, 10, 1), MapPlan::Answer(-1));
    assert_eq!(sys_mmap(4096, 10, 0), MapPlan::Answer(-1));
    assert_eq!(sys_mmap(4096, 10, 8), MapPlan::Answer(-1));
    assert_eq!(sys_mmap(4096, 10, 9), MapPlan::Answer(-1));
    assert_eq!(
        sys_mmap(8192, 5000, 3),
        MapPlan::MapFramed { start: 8192, end: 13192, prot: ProtFlags { bits: 3 } }
    );
}

#[test]
fn munmap_counts_covering_pages() {
    assert_eq!(sys_munmap(4096, 0), MapPlan::Answer(0));
    assert_eq!(sys_munmap(100, 1), MapPlan::Answer(-1));
    assert_eq!(sys_munmap(4096, 1), MapPlan::Unmap { start: 4096, npages: 1 });
    assert_eq!(sys_munmap(4096, 4096), MapPlan::Unmap { start: 4096, npages: 1 });
    assert_eq!(sys_munmap(0, 4097), MapPlan::Unmap { start: 0, npages: 2 });
}

#[test]
fn map_outcome_answers() {
    assert_eq!(map_outcome(true), 0);
    assert_eq!(map_outcome(false), -1);
}

#[test]
fn sbrk_answers_the_old_break() {
    assert_eq!(sys_sbrk(Some(0x4000)), 0x4000);
    assert_eq!(sys_sbrk(None), -1);
    assert_eq!(sys_sbrk(Some(usize::MAX)), -1);
}

#[test]
fn prot_flags_drop_unknown_bits() {
    let f = ProtFlags::from_bits_truncate(0b1101);
    assert_eq!(f.bits, 0b101);
}

#[test]
fn traced_write_and_read_reach_the_same_byte() {
    let p = pte(true, true, true);
    let w = sys_trace(REQ_WRITE, 0x5678, 0x3ff, p);
    let r = sys_trace(REQ_READ, 0x5678, 0, p);
    assert_eq!(w, TraceAction::WriteByte { pa: 0x80678, value: 0xff });
    assert_eq!(r, TraceAction::ReadByte { pa: 0x80678 });
}

#[test]
fn mmap_and_munmap_cover_the_same_pages() {
    match (sys_mmap(8192, 5000, 3), sys_munmap(8192, 5000)) {
        (MapPlan::MapFramed { start, end, .. }, MapPlan::Unmap { start: s2, npages }) => {
            assert_eq!(start, s2);
            assert_eq!((end + 4095) / 4096, start / 4096 + npages);
            assert_eq!(npages, 2);
        }
        other => panic!("unexpected plans {:?}", other),
    }
}
