use std::collections::BTreeMap;
use rcore_os::mm::address::{PhysAddr, PhysPageNum, VirtAddr, VirtPageNum};
use rcore_os::mm::frame_allocator::{PhysMemory, StackFrameAllocator};
use rcore_os::mm::page_table::{PTEFlags, PageTable, PTE_R, PTE_U, PTE_W};
use rcore_os::syscall::process::{
    beyond_user_range, sys_mmap, sys_munmap, sys_sbrk, sys_trace, time_val_from_us, TimeVal, TraceStep,
};
use rcore_os::task::task::{FramedArea, MapPermission, TaskControlBlock, TaskStatus};

fn tcb() -> TaskControlBlock {
    TaskControlBlock {
        task_status: TaskStatus::Running,
        memory_token: 0,
        trap_cx_ppn: PhysPageNum(3),
        base_size: 0x8000,
        heap_bottom: 0x8000,
        program_brk: 0x8000,
        trace_record: BTreeMap::new(),
    }
}

#[test]
fn time_is_split_into_seconds_and_microseconds() {
    assert_eq!(time_val_from_us(3_250_001), TimeVal { sec: 3, usec: 250_001 });
    assert_eq!(time_val_from_us(999_999), TimeVal { sec: 0, usec: 999_999 });
}

/// A task whose address space maps page 1 user readable and writable to
/// frame 11, page 2 user readable only to frame 12, page 3 readable and
/// writable but kernel only to frame 13, and the last user page writable to
/// frame 14.
fn mapped_task() -> (TaskControlBlock, PhysMemory) {
    let mut a = StackFrameAllocator::new();
    a.init(PhysPageNum(1), PhysPageNum(10));
    let mut mem = PhysMemory::new(16);
    let mut pt = PageTable::new(&mut a, &mut mem);
    let f = |bits: u8| PTEFlags::from_bits(bits).unwrap();
    pt.map(VirtPageNum(1), PhysPageNum(11), f(PTE_R | PTE_W | PTE_U), &mut a, &mut mem);
    pt.map(VirtPageNum(2), PhysPageNum(12), f(PTE_R | PTE_U), &mut a, &mut mem);
    pt.map(VirtPageNum(3), PhysPageNum(13), f(PTE_R | PTE_W), &mut a, &mut mem);
    pt.map(VirtPageNum((1 << 27) - 1), PhysPageNum(14), f(PTE_W | PTE_U), &mut a, &mut mem);
    let mut t = tcb();
    t.memory_token = pt.token();
    (t, mem)
}

#[test]
fn trace_reads_and_writes_user_bytes() {
    let (mut t, mem) = mapped_task();
    assert_eq!(sys_trace(&mut t, &mem, 0, 0x1008, 0), TraceStep::ReadByte(PhysAddr(11 * 4096 + 8)));
    assert_eq!(sys_trace(&mut t, &mem, 1, 0x1fff, 0x1ab), TraceStep::WriteByte(PhysAddr(11 * 4096 + 0xfff), 0xab));
    assert_eq!(sys_trace(&mut t, &mem, 0, 0x2000, 0), TraceStep::ReadByte(PhysAddr(12 * 4096)));
    assert_eq!(
        sys_trace(&mut t, &mem, 1, (1 << 39) - 1, 7),
        TraceStep::WriteByte(PhysAddr(14 * 4096 + 0xfff), 7)
    );
    assert!(t.trace_record.is_empty());
    assert!(beyond_user_range(1 << 39));
    assert!(!beyond_user_range((1 << 39) - 1));
}

#[test]
fn trace_refuses_what_the_user_may_not_touch() {
    let (mut t, mem) = mapped_task();
    // read only page
    assert_eq!(sys_trace(&mut t, &mem, 1, 0x2000, 0), TraceStep::Done(-1));
    // kernel only page
    assert_eq!(sys_trace(&mut t, &mem, 0, 0x3000, 0), TraceStep::Done(-1));
    assert_eq!(sys_trace(&mut t, &mem, 1, 0x3000, 0), TraceStep::Done(-1));
    // write only page
    assert_eq!(sys_trace(&mut t, &mem, 0, (1 << 39) - 1, 0), TraceStep::Done(-1));
    // unmapped page
    assert_eq!(sys_trace(&mut t, &mem, 0, 0x5000, 0), TraceStep::Done(-1));
    assert_eq!(sys_trace(&mut t, &mem, 1, 0x5000, 0), TraceStep::Done(-1));
    // beyond the user range
    assert_eq!(sys_trace(&mut t, &mem, 0, 1 << 39, 0), TraceStep::Done(-1));
    assert_eq!(sys_trace(&mut t, &mem, 1, usize::MAX, 0), TraceStep::Done(-1));
    // unknown request
    assert_eq!(sys_trace(&mut t, &mem, 3, 0x1000, 0), TraceStep::Done(-1));
    assert!(t.trace_record.is_empty());
    assert_eq!(t.task_status, TaskStatus::Running);
    assert_eq!(t.base_size, 0x8000);
}

#[test]
fn trace_counts_syscalls() {
    let mut t = tcb();
    let mem = PhysMemory::new(1);
    t.trace_syscall_step(410);
    t.trace_syscall_step(410);
    assert_eq!(sys_trace(&mut t, &mem, 2, 410, 0), TraceStep::Done(2));
    assert_eq!(sys_trace(&mut t, &mem, 2, 64, 0), TraceStep::Done(0));
    assert_eq!(t.trace_record.get(&64), Some(&0));
}

#[test]
fn mmap_checks_alignment_and_permission() {
    let t = tcb();
    assert_eq!(sys_mmap(&t, 0x1001, 0x1000, 1), None);
    assert_eq!(sys_mmap(&t, 0x1000, 0x1000, 0), None);
    assert_eq!(sys_mmap(&t, 0x1000, 0x1000, 8), None);
    assert_eq!(sys_mmap(&t, 0x1000, 0x1000, 0x17), None);
    assert_eq!(
        sys_mmap(&t, 0x1000, 0x2000, 0b101),
        Some(FramedArea { start_va: VirtAddr(0x1000), end_va: VirtAddr(0x3000), permission: MapPermission { bits: 0b1_1010 } })
    );
}

#[test]
fn munmap_checks_alignment() {
    assert_eq!(sys_munmap(0x2001, 0x1000), None);
    assert_eq!(sys_munmap(0x2000, 0x1000), Some((VirtAddr(0x2000), VirtAddr(0x3000))));
}

#[test]
fn sbrk_returns_old_break_or_minus_one() {
    let mut t = tcb();
    assert_eq!(sys_sbrk(&mut t, 0x1000, true), 0x8000);
    assert_eq!(t.program_brk, 0x9000);
    assert_eq!(sys_sbrk(&mut t, 0x1000, false), -1);
    assert_eq!(sys_sbrk(&mut t, -0x2000, true), -1);
    assert_eq!(t.program_brk, 0x9000);
}
