use rcore_os::mm::address::{PhysPageNum, VirtPageNum, PhysAddr};
use rcore_os::mm::frame_allocator::{PhysMemory, StackFrameAllocator};
use rcore_os::mm::page_table::{
    copy_to_user, translated_byte_buffer, BufferSlice, PTEFlags, PageTable, PageTableEntry, UserCopy, PTE_R,
    PTE_U, PTE_V, PTE_W, PTE_X,
};

fn flags(bits: u8) -> PTEFlags {
    PTEFlags::from_bits(bits).unwrap()
}

#[test]
fn entry_keeps_page_number_and_flags() {
    let e = PageTableEntry::new(PhysPageNum(0x8_0123), flags(PTE_V | PTE_R | PTE_W));
    assert_eq!(e.bits, (0x8_0123u64 << 10) | 0b111);
    assert_eq!(e.ppn(), PhysPageNum(0x8_0123));
    assert_eq!(e.flags().bits, 0b111);
    assert!(e.is_valid() && e.readable() && e.writable() && !e.executable());
}

#[test]
fn entry_page_number_is_cut_to_44_bits() {
    let e = PageTableEntry::new(PhysPageNum((1usize << 44) | 7), flags(PTE_X));
    assert_eq!(e.ppn(), PhysPageNum(7));
    assert!(!e.is_valid() && e.executable());
}

#[test]
fn empty_entry_has_no_flag() {
    let e = PageTableEntry::empty();
    assert_eq!(e.bits, 0);
    assert!(!e.is_valid() && !e.readable() && !e.writable() && !e.executable());
}

fn setup(frames: usize) -> (StackFrameAllocator, PhysMemory) {
    let mut a = StackFrameAllocator::new();
    a.init(PhysPageNum(1), PhysPageNum(frames));
    (a, PhysMemory::new(frames))
}

#[test]
fn map_then_translate_gives_the_mapping() {
    let (mut a, mut mem) = setup(16);
    let mut pt = PageTable::new(&mut a, &mut mem);
    let vpn = VirtPageNum((3 << 18) | (5 << 9) | 7);
    assert_eq!(pt.translate(vpn, &mem), None);
    pt.map(vpn, PhysPageNum(12), flags(PTE_R | PTE_U), &mut a, &mut mem);
    let e = pt.translate(vpn, &mem).unwrap();
    assert_eq!(e, PageTableEntry::new(PhysPageNum(12), flags(PTE_R | PTE_U | PTE_V)));
    // root, one level 1 and one level 2 table were taken from the allocator
    assert_eq!(a.allocate(), Some(PhysPageNum(4)));
    // a neighbour in the same leaf table reads as an empty entry
    assert_eq!(pt.translate(VirtPageNum((3 << 18) | (5 << 9) | 8), &mem), Some(PageTableEntry::empty()));
    // a page under another level 1 entry has no leaf
    assert_eq!(pt.translate(VirtPageNum((3 << 18) | (6 << 9)), &mem), None);
}

#[test]
fn unmap_clears_the_leaf_entry() {
    let (mut a, mut mem) = setup(16);
    let mut pt = PageTable::new(&mut a, &mut mem);
    let vpn = VirtPageNum(42);
    let other = VirtPageNum(43);
    pt.map(vpn, PhysPageNum(9), flags(PTE_R), &mut a, &mut mem);
    pt.map(other, PhysPageNum(10), flags(PTE_W), &mut a, &mut mem);
    assert!(pt.unmap(vpn, &mut mem));
    assert_eq!(pt.translate(vpn, &mem), Some(PageTableEntry::empty()));
    assert_eq!(pt.translate(other, &mem).unwrap().ppn(), PhysPageNum(10));
    assert!(!pt.unmap(VirtPageNum(1 << 18), &mut mem));
}

#[test]
fn token_names_the_root() {
    let (mut a, mut mem) = setup(4);
    let pt = PageTable::new(&mut a, &mut mem);
    let token = pt.token();
    assert_eq!(token, (8usize << 60) | 1);
    let again = PageTable::from_token(token);
    assert_eq!(again.token(), token);
}

#[test]
fn user_buffer_is_split_at_pages() {
    let (mut a, mut mem) = setup(16);
    let mut pt = PageTable::new(&mut a, &mut mem);
    pt.map(VirtPageNum(2), PhysPageNum(11), flags(PTE_R | PTE_W | PTE_U), &mut a, &mut mem);
    pt.map(VirtPageNum(3), PhysPageNum(12), flags(PTE_R | PTE_U), &mut a, &mut mem);
    let token = pt.token();
    let slices = translated_byte_buffer(token, 2 * 4096 + 4000, 200, &mem).unwrap();
    assert_eq!(
        slices,
        vec![
            BufferSlice { ppn: PhysPageNum(11), start: 4000, end: 4096 },
            BufferSlice { ppn: PhysPageNum(12), start: 0, end: 104 },
        ]
    );
    let whole = translated_byte_buffer(token, 3 * 4096, 4096, &mem).unwrap();
    assert_eq!(whole, vec![BufferSlice { ppn: PhysPageNum(12), start: 0, end: 4096 }]);
    assert_eq!(translated_byte_buffer(token, 3 * 4096 + 10, 4096, &mem), None);
    assert_eq!(translated_byte_buffer(token, 100, 0, &mem), Some(vec![]));
}

#[test]
fn copies_stop_at_a_page_that_is_not_writable() {
    let (mut a, mut mem) = setup(16);
    let mut pt = PageTable::new(&mut a, &mut mem);
    pt.map(VirtPageNum(2), PhysPageNum(11), flags(PTE_R | PTE_W | PTE_U), &mut a, &mut mem);
    pt.map(VirtPageNum(3), PhysPageNum(12), flags(PTE_R | PTE_U), &mut a, &mut mem);
    let token = pt.token();
    let (copies, ok) = copy_to_user(token, 2 * 4096 + 8, 0x1000, 16, &mem);
    assert!(ok);
    assert_eq!(copies, vec![UserCopy { dst: PhysAddr(11 * 4096 + 8), src: 0x1000, len: 16 }]);
    let (copies, ok) = copy_to_user(token, 2 * 4096 + 4090, 0x1000, 16, &mem);
    assert!(!ok);
    assert_eq!(copies, vec![UserCopy { dst: PhysAddr(11 * 4096 + 4090), src: 0x1000, len: 6 }]);
    let (copies, ok) = copy_to_user(token, 5 * 4096, 0x1000, 1, &mem);
    assert!(!ok);
    assert!(copies.is_empty());
}

#[test]
fn buffers_need_no_user_flag() {
    let (mut a, mut mem) = setup(16);
    let mut pt = PageTable::new(&mut a, &mut mem);
    pt.map(VirtPageNum(2), PhysPageNum(11), flags(PTE_R | PTE_W), &mut a, &mut mem);
    let token = pt.token();
    assert_eq!(
        translated_byte_buffer(token, 2 * 4096, 1, &mem),
        Some(vec![BufferSlice { ppn: PhysPageNum(11), start: 0, end: 1 }])
    );
    let (copies, ok) = copy_to_user(token, 2 * 4096, 0x1000, 1, &mem);
    assert!(ok);
    assert_eq!(copies, vec![UserCopy { dst: PhysAddr(11 * 4096), src: 0x1000, len: 1 }]);
}

#[test]
fn a_buffer_may_end_at_the_top_of_the_range() {
    let (mut a, mut mem) = setup(16);
    let mut pt = PageTable::new(&mut a, &mut mem);
    let top = (1usize << 27) - 1;
    pt.map(VirtPageNum(top), PhysPageNum(13), flags(PTE_R), &mut a, &mut mem);
    let token = pt.token();
    assert_eq!(
        translated_byte_buffer(token, (1usize << 39) - 1, 1, &mem),
        Some(vec![BufferSlice { ppn: PhysPageNum(13), start: 4095, end: 4096 }])
    );
    assert_eq!(
        translated_byte_buffer(token, (1usize << 39) - 4096, 4096, &mem),
        Some(vec![BufferSlice { ppn: PhysPageNum(13), start: 0, end: 4096 }])
    );
}

#[test]
fn a_buffer_across_the_middle_of_the_range_is_read_whole() {
    let (mut a, mut mem) = setup(16);
    let mut pt = PageTable::new(&mut a, &mut mem);
    let below = (1usize << 26) - 1;
    pt.map(VirtPageNum(below), PhysPageNum(11), flags(PTE_R | PTE_U), &mut a, &mut mem);
    let token = pt.token();
    let ptr = (1usize << 38) - 10;
    // the page above 2^38 is not mapped: the buffer cannot be had
    assert_eq!(translated_byte_buffer(token, ptr, 20, &mem), None);
    pt.map(VirtPageNum(below + 1), PhysPageNum(12), flags(PTE_R | PTE_U), &mut a, &mut mem);
    assert_eq!(
        translated_byte_buffer(token, ptr, 20, &mem),
        Some(vec![
            BufferSlice { ppn: PhysPageNum(11), start: 4086, end: 4096 },
            BufferSlice { ppn: PhysPageNum(12), start: 0, end: 10 },
        ])
    );
}

#[test]
fn a_copy_may_end_at_the_top_of_the_range() {
    let (mut a, mut mem) = setup(16);
    let mut pt = PageTable::new(&mut a, &mut mem);
    let top = (1usize << 27) - 1;
    pt.map(VirtPageNum(top), PhysPageNum(13), flags(PTE_W | PTE_U), &mut a, &mut mem);
    let token = pt.token();
    let (copies, ok) = copy_to_user(token, (1usize << 39) - 16, 0x2000, 16, &mem);
    assert!(ok);
    assert_eq!(copies, vec![UserCopy { dst: PhysAddr(13 * 4096 + 4080), src: 0x2000, len: 16 }]);
}
