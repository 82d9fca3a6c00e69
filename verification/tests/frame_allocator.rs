use rcore_os::mm::address::PhysPageNum;
use rcore_os::mm::frame_allocator::{frame_alloc, frame_dealloc, FrameTracker, PhysMemory, StackFrameAllocator};
use rcore_os::mm::page_table::PageTableEntry;

#[test]
fn empty_allocator_has_no_frame() {
    let mut a = StackFrameAllocator::new();
    assert_eq!(a.allocate(), None);
}

#[test]
fn frames_come_from_the_range_in_order() {
    let mut a = StackFrameAllocator::new();
    a.init(PhysPageNum(5), PhysPageNum(8));
    assert_eq!(a.allocate(), Some(PhysPageNum(5)));
    assert_eq!(a.allocate(), Some(PhysPageNum(6)));
    assert_eq!(a.allocate(), Some(PhysPageNum(7)));
    assert_eq!(a.allocate(), None);
}

#[test]
fn given_back_frames_come_back_last_in_first_out() {
    let mut a = StackFrameAllocator::new();
    a.init(PhysPageNum(0), PhysPageNum(10));
    for _ in 0..4 {
        a.allocate();
    }
    assert!(a.is_in_use(PhysPageNum(1)));
    a.dealloc(PhysPageNum(1));
    a.dealloc(PhysPageNum(3));
    assert!(!a.is_in_use(PhysPageNum(1)));
    assert!(!a.is_in_use(PhysPageNum(4)));
    assert_eq!(a.allocate(), Some(PhysPageNum(3)));
    assert_eq!(a.allocate(), Some(PhysPageNum(1)));
    assert_eq!(a.allocate(), Some(PhysPageNum(4)));
}

#[test]
fn frame_alloc_clears_the_frame() {
    let mut a = StackFrameAllocator::new();
    a.init(PhysPageNum(2), PhysPageNum(4));
    let mut mem = PhysMemory::new(4);
    mem.write(PhysPageNum(2), 7, PageTableEntry { bits: 0xabc });
    let f: FrameTracker = frame_alloc(&mut a, &mut mem).unwrap();
    assert_eq!(f.ppn, PhysPageNum(2));
    assert_eq!(mem.read(PhysPageNum(2), 7), PageTableEntry::empty());
    frame_dealloc(&mut a, PhysPageNum(2));
    assert!(!a.is_in_use(PhysPageNum(2)));
}
