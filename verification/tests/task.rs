use std::collections::BTreeMap;
use rcore_os::mm::address::{PhysPageNum, VirtAddr, VirtPageNum};
use rcore_os::mm::frame_allocator::{PhysMemory, StackFrameAllocator};
use rcore_os::mm::page_table::{PTEFlags, PageTable, PTE_R, PTE_W};
use rcore_os::task::task::{BrkRequest, FramedArea, MapPermission, TaskControlBlock, TaskStatus, TRAP_CONTEXT_VPN};

fn tcb(heap_bottom: usize, program_brk: usize) -> TaskControlBlock {
    TaskControlBlock {
        task_status: TaskStatus::Ready,
        memory_token: 0,
        trap_cx_ppn: PhysPageNum(3),
        base_size: heap_bottom,
        heap_bottom,
        program_brk,
        trace_record: BTreeMap::new(),
    }
}

#[test]
fn syscall_counts_start_at_zero_and_step_by_one() {
    let mut t = tcb(0x1000, 0x1000);
    assert_eq!(t.trace_syscall(64), 0);
    t.trace_syscall_step(64);
    t.trace_syscall_step(64);
    t.trace_syscall_step(93);
    assert_eq!(t.trace_syscall(64), 2);
    assert_eq!(t.trace_syscall(93), 1);
    assert_eq!(t.trace_syscall(169), 0);
    assert_eq!(t.trace_record.get(&169), Some(&0));
}

#[test]
fn brk_request_grows_and_shrinks() {
    let t = tcb(0x1000, 0x3000);
    assert_eq!(
        t.brk_request(0x500),
        Some(BrkRequest { shrink: false, heap_bottom: VirtAddr(0x1000), new_brk: VirtAddr(0x3500) })
    );
    assert_eq!(
        t.brk_request(-0x2000),
        Some(BrkRequest { shrink: true, heap_bottom: VirtAddr(0x1000), new_brk: VirtAddr(0x1000) })
    );
    assert_eq!(t.brk_request(-0x2001), None);
}

#[test]
fn change_program_brk_moves_the_break_when_resized() {
    let mut t = tcb(0x1000, 0x3000);
    assert_eq!(t.change_program_brk(0x100, true), Some(0x3000));
    assert_eq!(t.program_brk, 0x3100);
    assert_eq!(t.change_program_brk(0x100, false), None);
    assert_eq!(t.program_brk, 0x3100);
    assert_eq!(t.change_program_brk(-0x3000, true), None);
    assert_eq!(t.program_brk, 0x3100);
}

#[test]
fn map_mem_area_shifts_permissions_and_adds_user() {
    let t = tcb(0, 0);
    let area = t.map_mem_area(VirtAddr(0x10000), VirtAddr(0x12000), 0b011);
    assert_eq!(
        area,
        FramedArea { start_va: VirtAddr(0x10000), end_va: VirtAddr(0x12000), permission: MapPermission { bits: 0b1_0110 } }
    );
}

#[test]
fn new_task_is_ready_with_an_empty_heap_at_the_stack_top() {
    let mut a = StackFrameAllocator::new();
    a.init(PhysPageNum(1), PhysPageNum(6));
    let mut mem = PhysMemory::new(8);
    let mut pt = PageTable::new(&mut a, &mut mem);
    let flags = PTEFlags::from_bits(PTE_R | PTE_W).unwrap();
    pt.map(VirtPageNum(TRAP_CONTEXT_VPN), PhysPageNum(7), flags, &mut a, &mut mem);
    let token = pt.token();
    let mut t = TaskControlBlock::new(token, &mem, 0x5000);
    assert_eq!(t.task_status, TaskStatus::Ready);
    assert_eq!(t.trap_cx_ppn, PhysPageNum(7));
    assert_eq!(t.get_user_token(), token);
    assert_eq!((t.base_size, t.heap_bottom, t.program_brk), (0x5000, 0x5000, 0x5000));
    assert!(t.trace_record.is_empty());
    assert_eq!(t.trace_syscall(1), 0);
}

#[test]
fn growing_and_shrinking_by_the_same_size_restores_the_break() {
    let mut t = tcb(0x1000, 0x2000);
    assert_eq!(t.change_program_brk(0x1800, true), Some(0x2000));
    assert_eq!(t.change_program_brk(-0x1800, true), Some(0x3800));
    assert_eq!(t.program_brk, 0x2000);
}

#[test]
fn counts_follow_the_steps_whatever_comes_between() {
    let mut t = tcb(0x1000, 0x1000);
    t.trace_syscall_step(64);
    assert_eq!(t.trace_syscall(93), 0);
    t.trace_syscall_step(93);
    t.trace_syscall_step(64);
    assert_eq!(t.trace_syscall(64), 2);
    t.trace_syscall_step(64);
    assert_eq!(t.trace_syscall(64), 3);
    assert_eq!(t.trace_syscall(64), 3);
    assert_eq!(t.trace_syscall(93), 1);
}
