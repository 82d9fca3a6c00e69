//! Process management syscalls: the checks on their arguments and what they
//! ask of the task and of its address space.
use vstd::prelude::*;
use crate::mm::address::{PhysAddr, VirtAddr};
use crate::mm::frame_allocator::PhysMemory;
use crate::mm::page_table::{
    PageTable, PageTableEntry, lemma_one_byte_buffer, lemma_one_byte_copy, next_ppn, token_root, translation,
    page_of, page_readable, page_writable, user_buffer, user_copies, walk_in_memory, entry_has, PTE_U, PTE_V,
    PTE_R, PTE_W,
};
use crate::task::task::{FramedArea, TaskControlBlock, requested_brk};

verus! {

/// Time in seconds and microseconds.
#[derive(Clone, Copy, Debug, PartialEq, Eq, Structural)]
pub struct TimeVal {
    pub sec: usize,
    pub usec: usize,
}

/// Size in bytes of a `TimeVal` as it is copied to user space.
pub const TIME_VAL_SIZE: usize = 16;

/// The first address above the SV39 user address range.
pub const USER_VA_END: u64 = 0x80_0000_0000;

/// What `sys_trace` leaves to the caller, or its result.
#[derive(Clone, Copy, Debug, PartialEq, Eq, Structural)]
pub enum TraceStep {
    /// The call is finished with this result.
    Done(isize),
    /// The result is the byte at this physical address.
    ReadByte(PhysAddr),
    /// Write this byte at this physical address; the result is 0.
    WriteByte(PhysAddr, u8),
}

/// The leaf entry that maps the page of user address `va` in the address
/// space named by `token`.
pub open spec fn user_page(mem: Seq<Seq<PageTableEntry>>, token: usize, va: usize) -> Option<PageTableEntry> {
    translation(mem, token_root(token), page_of(va))
}

/// The physical address of user address `va`, in the frame that `e` maps.
pub open spec fn byte_addr(e: PageTableEntry, va: usize) -> PhysAddr {
    PhysAddr(((next_ppn(e) << 12usize) | ((va % 4096) as usize)) as usize)
}

/// The time of day that `sys_get_time` copies to user space, from a time in
/// microseconds.
pub fn time_val_from_us(us: usize) -> (r: TimeVal)
    ensures
        r.sec == us / 1_000_000,
        r.usec == us % 1_000_000,
        r.sec * 1_000_000 + r.usec == us,
{
    TimeVal { sec: us / 1_000_000, usec: us % 1_000_000 }
}

/// Does `addr` lie outside the SV39 user address range?
pub fn beyond_user_range(addr: usize) -> (r: bool)
    ensures
        r == (addr >= USER_VA_END),
{
    let a = addr as u64;
    let one: u64 = 1u64 << 39u64;
    assert(one == 0x80_0000_0000u64) by (bit_vector)
        requires one == 1u64 << 39u64;
    let mask: u64 = one - 1;
    let r = a & !mask != 0;
    assert(r == (a >= 0x80_0000_0000u64)) by (bit_vector)
        requires mask == 0x80_0000_0000u64 - 1, r == (a & !mask != 0);
    r
}

/// Does the entry let the user access its page?
pub open spec fn user_page_flag(e: PageTableEntry) -> bool {
    entry_has(e.bits, PTE_U)
}

/// What a trace read of user address `id` (below the end of the user range)
/// gives: the place of the byte when the user may read its page, -1 otherwise.
pub open spec fn trace_read(mem: Seq<Seq<PageTableEntry>>, token: usize, id: usize) -> TraceStep {
    match user_page(mem, token, id) {
        Some(e) => if page_readable(e) && user_page_flag(e) { TraceStep::ReadByte(byte_addr(e, id)) } else { TraceStep::Done(-1isize) },
        None => TraceStep::Done(-1isize),
    }
}

/// What a trace write of `data` at user address `id` (below the end of the
/// user range) gives: the place of the byte and its new value when the user
/// may write its page, -1 otherwise.
pub open spec fn trace_write(mem: Seq<Seq<PageTableEntry>>, token: usize, id: usize, data: usize) -> TraceStep {
    match user_page(mem, token, id) {
        Some(e) => if page_writable(e) && user_page_flag(e) {
            TraceStep::WriteByte(byte_addr(e, id), data as u8)
        } else {
            TraceStep::Done(-1isize)
        },
        None => TraceStep::Done(-1isize),
    }
}

/// On a page that the user may access, a trace read gives the byte that the
/// buffer of one byte at `id` holds, and fails exactly when there is no such
/// buffer; a trace write goes where copying one byte to `id` copies it, and
/// fails exactly when that copy fails. On any other page both fail.
pub proof fn lemma_trace_matches_one_byte_buffers(mem: Seq<Seq<PageTableEntry>>, token: usize, id: usize, data: usize, k: int)
    ensures
        user_page(mem, token, id) matches Some(e) && !user_page_flag(e) ==> {
            &&& trace_read(mem, token, id) == TraceStep::Done(-1isize)
            &&& trace_write(mem, token, id, data) == TraceStep::Done(-1isize)
        },
        !(user_page(mem, token, id) matches Some(e) && !user_page_flag(e)) ==> {
            &&& trace_read(mem, token, id) == match user_buffer(mem, token_root(token), id as int, id + 1) {
                Some(v) => TraceStep::ReadByte(PhysAddr(((v[0].ppn.0 << 12usize) | v[0].start) as usize)),
                None => TraceStep::Done(-1isize),
            }
            &&& trace_write(mem, token, id, data) == match user_copies(mem, token_root(token), id as int, k, id + 1) {
                (c, true) => TraceStep::WriteByte(c[0].dst, data as u8),
                (c, false) => TraceStep::Done(-1isize),
            }
        },
{
    lemma_one_byte_buffer(mem, token_root(token), id as int);
    lemma_one_byte_copy(mem, token_root(token), id as int, k);
}

/// Trace: request 0 reads the user byte at `id`, request 1 writes the low
/// byte of `data` at `id`, request 2 gives how many times system call `id`
/// was made. Anything else, an address beyond the user range, and a page that
/// the user may not read (request 0) or write (request 1) fail with -1.
pub fn sys_trace(task: &mut TaskControlBlock, mem: &PhysMemory, trace_request: usize, id: usize, data: usize)
    -> (r: TraceStep)
    requires
        trace_request < 2 && id < USER_VA_END ==> walk_in_memory(mem@, token_root(old(task).memory_token), page_of(id)),
    ensures
        trace_request == 0 ==> r == if id >= USER_VA_END {
            TraceStep::Done(-1isize)
        } else {
            trace_read(mem@, old(task).memory_token, id)
        },
        trace_request == 1 ==> r == if id >= USER_VA_END {
            TraceStep::Done(-1isize)
        } else {
            trace_write(mem@, old(task).memory_token, id, data)
        },
        trace_request == 2 ==> {
            &&& r == TraceStep::Done(old(task).trace_count(id) as isize)
            &&& final(task).trace_record@ == old(task).trace_record@.insert(id, old(task).trace_count(id) as usize)
        },
        trace_request != 2 ==> final(task).trace_record@ == old(task).trace_record@,
        trace_request > 2 ==> r == TraceStep::Done(-1isize),
        forall|k: usize| #[trigger] final(task).trace_count(k) == old(task).trace_count(k),
        final(task).task_status == old(task).task_status,
        final(task).memory_token == old(task).memory_token,
        final(task).trap_cx_ppn == old(task).trap_cx_ppn,
        final(task).base_size == old(task).base_size,
        final(task).heap_bottom == old(task).heap_bottom,
        final(task).program_brk == old(task).program_brk,
{
    if trace_request == 2 {
        return TraceStep::Done(task.trace_syscall(id) as isize);
    }
    if trace_request > 2 || beyond_user_range(id) {
        return TraceStep::Done(-1isize);
    }
    let va = VirtAddr::from_usize(id);
    let a = id as u64;
    assert(a & 0x7f_ffff_ffffu64 == a) by (bit_vector)
        requires a < 0x80_0000_0000u64;
    let vpn = va.floor();
    let page_table = PageTable::from_token(task.get_user_token());
    let pte = match page_table.translate(vpn, mem) {
        Some(pte) => pte,
        None => return TraceStep::Done(-1isize),
    };
    let pa = PhysAddr((pte.ppn().0 << 12usize) | va.page_offset());
    if trace_request == 0 {
        if pte.is_valid() && pte.readable() && pte.is_user() {
            TraceStep::ReadByte(pa)
        } else {
            TraceStep::Done(-1isize)
        }
    } else {
        if pte.writable() && pte.is_user() {
            TraceStep::WriteByte(pa, data as u8)
        } else {
            TraceStep::Done(-1isize)
        }
    }
}

/// Is `(start, prot)` a valid mmap request: `start` page aligned, `prot`
/// only in its three low bits and not zero?
pub open spec fn mmap_args_valid(start: usize, prot: usize) -> bool {
    &&& start % 4096 == 0
    &&& prot < 8
    &&& prot != 0
}

/// An mmap request is valid exactly when `start` is page aligned and `prot`
/// asks for at least one of read, write and execute and for nothing else.
pub proof fn lemma_mmap_args(start: usize, prot: usize)
    ensures
        mmap_args_valid(start, prot) <==> (start % 4096 == 0 && 1 <= prot <= 7),
{
}

/// mmap: the area to map from `start` for `len` bytes with permission bits
/// `prot`; `None` (an error of -1) when the arguments are not valid.
pub fn sys_mmap(task: &TaskControlBlock, start: usize, len: usize, prot: usize) -> (r: Option<FramedArea>)
    requires
        mmap_args_valid(start, prot) ==> start + len <= usize::MAX,
    ensures
        r == if mmap_args_valid(start, prot) {
            Some(FramedArea {
                start_va: VirtAddr(start),
                end_va: VirtAddr((start + len) as usize),
                permission: crate::task::task::MapPermission { bits: ((prot as u8) << 1u8) | crate::task::task::MAP_U },
            })
        } else {
            None::<FramedArea>
        },
        r is Some <==> (start % 4096 == 0 && 1 <= prot <= 7),
        r matches Some(area) ==> area.start_va.0 == start && area.end_va.0 == start + len
            && area.permission.bits == prot * 2 + 16,
{
    assert((start & 0xFFF == 0) == (start % 4096 == 0)) by (bit_vector);
    assert(((prot & !0x7usize) == 0) == (prot < 8)) by (bit_vector);
    assert(prot < 8 ==> ((prot & 0x7usize) == 0) == (prot == 0)) by (bit_vector);
    if (start & 0xFFF) != 0 || (prot & !0x7) != 0 || (prot & 0x7) == 0 {
        return None;
    }
    let p = prot as u8;
    assert(((p << 1u8) as u8) | 16u8 == p * 2 + 16) by (bit_vector)
        requires p < 8;
    assert(((p << 1u8) as u8) & !crate::task::task::MAP_ALL == 0) by (bit_vector)
        requires p < 8;
    let start_va = VirtAddr(start);
    let end_va = VirtAddr(start + len);
    Some(task.map_mem_area(start_va, end_va, p))
}

/// munmap: the area to unmap from `start` for `len` bytes; `None` (an error
/// of -1) when `start` is not page aligned.
pub fn sys_munmap(start: usize, len: usize) -> (r: Option<(VirtAddr, VirtAddr)>)
    requires
        start % 4096 == 0 ==> start + len <= usize::MAX,
    ensures
        r == if start % 4096 == 0 {
            Some((VirtAddr(start), VirtAddr((start + len) as usize)))
        } else {
            None::<(VirtAddr, VirtAddr)>
        },
{
    assert((start & 0xFFF == 0) == (start % 4096 == 0)) by (bit_vector);
    if (start & 0xFFF) != 0 {
        return None;
    }
    Some((VirtAddr(start), VirtAddr(start + len)))
}

/// change data segment size: the old break, or -1 when the change fails.
/// `resized` tells whether the address space carried out the request that
/// `brk_request` made for the same `size`.
pub fn sys_sbrk(task: &mut TaskControlBlock, size: i32, resized: bool) -> (r: isize)
    requires
        isize::MIN <= requested_brk(old(task).program_brk, size) <= isize::MAX,
    ensures
        if requested_brk(old(task).program_brk, size) >= (old(task).heap_bottom as isize) as int && resized {
            &&& r == old(task).program_brk as isize
            &&& final(task).program_brk == requested_brk(old(task).program_brk, size) as usize
        } else {
            &&& r == -1
            &&& final(task).program_brk == old(task).program_brk
        },
        final(task).heap_bottom == old(task).heap_bottom,
        final(task).trace_record@ == old(task).trace_record@,
{
    if let Some(old_brk) = task.change_program_brk(size, resized) {
        old_brk as isize
    } else {
        -1
    }
}

/// A trace read gives a byte exactly when the page of `id` is mapped valid,
/// readable and user accessible, and a trace write exactly when it is mapped
/// writable and user accessible; the byte is then the one at `id`'s offset in
/// the page's frame.
pub proof fn lemma_trace_access_needs_flags(mem: Seq<Seq<PageTableEntry>>, token: usize, id: usize, data: usize)
    ensures
        trace_read(mem, token, id) is ReadByte <==> (user_page(mem, token, id) matches Some(x)
            && entry_has(x.bits, PTE_V) && entry_has(x.bits, PTE_R) && entry_has(x.bits, PTE_U)),
        trace_write(mem, token, id, data) is WriteByte <==> (user_page(mem, token, id) matches Some(x)
            && entry_has(x.bits, PTE_W) && entry_has(x.bits, PTE_U)),
        trace_read(mem, token, id) matches TraceStep::ReadByte(pa) ==>
            pa.0 == ((next_ppn(user_page(mem, token, id)->0) << 12usize) | ((id % 4096) as usize)) as usize,
        trace_write(mem, token, id, data) matches TraceStep::WriteByte(pa, b) ==> b == data % 256
            && pa.0 == ((next_ppn(user_page(mem, token, id)->0) << 12usize) | ((id % 4096) as usize)) as usize,
{
    let d = data;
    assert((d as u8) as int == d % 256) by (bit_vector);
}

} // verus!
