//! Types related to task management: the bookkeeping a task control block
//! keeps of its heap and of the system calls it made.
use vstd::prelude::*;
use std::collections::BTreeMap;
use crate::mm::address::{PhysPageNum, VirtAddr, VirtPageNum};
use crate::mm::frame_allocator::PhysMemory;
use crate::mm::page_table::{PageTable, next_ppn, token_root, translation, walk_in_memory};

verus! {

broadcast use vstd::laws_cmp::group_laws_cmp;

/// Readable permission bit of a mapped area.
pub const MAP_R: u8 = 0x2;
/// Writable permission bit of a mapped area.
pub const MAP_W: u8 = 0x4;
/// Executable permission bit of a mapped area.
pub const MAP_X: u8 = 0x8;
/// User permission bit of a mapped area.
pub const MAP_U: u8 = 0x10;

/// The bits that are defined map permissions.
pub const MAP_ALL: u8 = 0x1e;

/// Permissions of a mapped area.
#[derive(Clone, Copy, Debug, PartialEq, Eq, Structural)]
pub struct MapPermission {
    pub bits: u8,
}

/// An area that a task asks its address space to map with fresh frames.
#[derive(Clone, Copy, Debug, PartialEq, Eq, Structural)]
pub struct FramedArea {
    pub start_va: VirtAddr,
    pub end_va: VirtAddr,
    pub permission: MapPermission,
}

/// A change of the program break that a task asks its address space for:
/// shrink or grow the heap area that starts at `heap_bottom` so that it ends
/// at `new_brk`.
#[derive(Clone, Copy, Debug, PartialEq, Eq, Structural)]
pub struct BrkRequest {
    pub shrink: bool,
    pub heap_bottom: VirtAddr,
    pub new_brk: VirtAddr,
}

/// task status: UnInit, Ready, Running, Exited
#[derive(Copy, Clone, PartialEq, Eq, Structural, Debug)]
pub enum TaskStatus {
    /// uninitialized
    UnInit,
    /// ready to run
    Ready,
    /// running
    Running,
    /// exited
    Exited,
}

/// The page of the trap context in every user address space: the page just
/// below the trampoline, which takes the highest page of the SV39 range.
pub const TRAP_CONTEXT_VPN: usize = 0x7ff_fffe;

/// The task control block (TCB) of a task.
pub struct TaskControlBlock {
    /// Maintain the execution status of the current process
    pub task_status: TaskStatus,
    /// The token of the task's address space: the page table it runs on
    pub memory_token: usize,
    /// The phys page number of trap context
    pub trap_cx_ppn: PhysPageNum,
    /// The size(top addr) of program which is loaded from elf file
    pub base_size: usize,
    /// Heap bottom
    pub heap_bottom: usize,
    /// Program break
    pub program_brk: usize,
    /// trace record: how many times each system call was made
    pub trace_record: BTreeMap<usize, usize>,
}

/// The program break that a change by `size` bytes asks for, computed as the
/// task does, with the break read as a signed number.
pub open spec fn requested_brk(program_brk: usize, size: i32) -> int {
    (program_brk as isize) as int + size as int
}

impl TaskControlBlock {
    /// How many times system call `syscall_id` was counted.
    pub open spec fn trace_count(&self, syscall_id: usize) -> nat {
        count_of(self.trace_record@, syscall_id)
    }

    /// A new task, once its address space, whose page table `memory_token`
    /// names, is built from its ELF image: it is ready, its trap context lives
    /// in the frame that the page `TRAP_CONTEXT_VPN` maps to, and its heap
    /// starts empty at the top `user_sp` of its user stack, with no system
    /// call counted.
    pub fn new(memory_token: usize, mem: &PhysMemory, user_sp: usize) -> (r: Self)
        requires
            walk_in_memory(mem@, token_root(memory_token), TRAP_CONTEXT_VPN),
            translation(mem@, token_root(memory_token), TRAP_CONTEXT_VPN) is Some,
        ensures
            r.task_status == TaskStatus::Ready,
            r.memory_token == memory_token,
            r.trap_cx_ppn.0 == next_ppn(translation(mem@, token_root(memory_token), TRAP_CONTEXT_VPN)->0),
            r.base_size == user_sp,
            r.heap_bottom == user_sp,
            r.program_brk == user_sp,
            r.trace_record@ == Map::<usize, usize>::empty(),
    {
        let page_table = PageTable::from_token(memory_token);
        let trap_cx_ppn = page_table.translate(VirtPageNum(TRAP_CONTEXT_VPN), mem).unwrap().ppn();
        TaskControlBlock {
            task_status: TaskStatus::Ready,
            memory_token,
            trap_cx_ppn,
            base_size: user_sp,
            heap_bottom: user_sp,
            program_brk: user_sp,
            trace_record: BTreeMap::new(),
        }
    }

    /// get the user token
    pub fn get_user_token(&self) -> (r: usize)
        ensures
            r == self.memory_token,
    {
        self.memory_token
    }

    /// The change of the program break by `size` bytes that the address
    /// space must carry out; `None` when the break would go below the heap
    /// bottom.
    pub fn brk_request(&self, size: i32) -> (r: Option<BrkRequest>)
        requires
            isize::MIN <= requested_brk(self.program_brk, size) <= isize::MAX,
        ensures
            r == if requested_brk(self.program_brk, size) < (self.heap_bottom as isize) as int {
                None::<BrkRequest>
            } else {
                Some(BrkRequest {
                    shrink: size < 0,
                    heap_bottom: VirtAddr(self.heap_bottom),
                    new_brk: VirtAddr(requested_brk(self.program_brk, size) as usize),
                })
            },
    {
        let new_brk = self.program_brk as isize + size as isize;
        if new_brk < self.heap_bottom as isize {
            return None;
        }
        Some(BrkRequest { shrink: size < 0, heap_bottom: VirtAddr(self.heap_bottom), new_brk: VirtAddr(new_brk as usize) })
    }

    /// change the location of the program break. return None if failed.
    /// `resized` tells whether the address space carried out the request
    /// that `brk_request` made for the same `size`.
    pub fn change_program_brk(&mut self, size: i32, resized: bool) -> (r: Option<usize>)
        requires
            isize::MIN <= requested_brk(old(self).program_brk, size) <= isize::MAX,
        ensures
            final(self).heap_bottom == old(self).heap_bottom,
            final(self).base_size == old(self).base_size,
            final(self).task_status == old(self).task_status,
            final(self).trap_cx_ppn == old(self).trap_cx_ppn,
            final(self).memory_token == old(self).memory_token,
            final(self).trace_record@ == old(self).trace_record@,
            if requested_brk(old(self).program_brk, size) >= (old(self).heap_bottom as isize) as int && resized {
                &&& r == Some(old(self).program_brk)
                &&& final(self).program_brk == requested_brk(old(self).program_brk, size) as usize
            } else {
                &&& r == None::<usize>
                &&& final(self).program_brk == old(self).program_brk
            },
    {
        let old_break = self.program_brk;
        let new_brk = self.program_brk as isize + size as isize;
        if new_brk < self.heap_bottom as isize {
            return None;
        }
        if resized {
            self.program_brk = new_brk as usize;
            Some(old_break)
        } else {
            None
        }
    }

    /// The framed area that mapping `start_va..end_va` with user permission
    /// bits `permission` (read, write, execute in bits 0, 1, 2) asks the
    /// address space to insert: the bits move one place up and the user bit
    /// is added.
    pub fn map_mem_area(&self, start_va: VirtAddr, end_va: VirtAddr, permission: u8) -> (r: FramedArea)
        requires
            ((permission << 1u8) as u8) & !MAP_ALL == 0,
        ensures
            r == (FramedArea {
                start_va,
                end_va,
                permission: MapPermission { bits: ((permission << 1u8) as u8) | MAP_U },
            }),
    {
        let bits: u8 = permission << 1u8;
        FramedArea { start_va, end_va, permission: MapPermission { bits: bits | MAP_U } }
    }

    /// How many times system call `syscall_id` was counted; a system call not
    /// counted yet gets a count of zero.
    pub fn trace_syscall(&mut self, syscall_id: usize) -> (r: usize)
        ensures
            r == old(self).trace_count(syscall_id),
            final(self).trace_record@ == old(self).trace_record@.insert(syscall_id, r),
            forall|id: usize| #[trigger] final(self).trace_count(id) == old(self).trace_count(id),
            final(self).heap_bottom == old(self).heap_bottom,
            final(self).program_brk == old(self).program_brk,
            final(self).base_size == old(self).base_size,
            final(self).task_status == old(self).task_status,
            final(self).trap_cx_ppn == old(self).trap_cx_ppn,
            final(self).memory_token == old(self).memory_token,
    {
        let r = match self.trace_record.get(&syscall_id) {
            Some(count) => *count,
            None => 0,
        };
        self.trace_record.insert(syscall_id, r);
        r
    }

    /// Count one more call of system call `syscall_id`.
    pub fn trace_syscall_step(&mut self, syscall_id: usize)
        requires
            old(self).trace_count(syscall_id) < usize::MAX,
        ensures
            final(self).trace_record@ == old(self).trace_record@.insert(syscall_id,
                (old(self).trace_count(syscall_id) + 1) as usize),
            final(self).trace_record@ == stepped(old(self).trace_record@, seq![syscall_id]),
            forall|id: usize| #[trigger] final(self).trace_count(id)
                == old(self).trace_count(id) + if id == syscall_id { 1nat } else { 0nat },
            final(self).heap_bottom == old(self).heap_bottom,
            final(self).program_brk == old(self).program_brk,
            final(self).base_size == old(self).base_size,
            final(self).task_status == old(self).task_status,
            final(self).trap_cx_ppn == old(self).trap_cx_ppn,
            final(self).memory_token == old(self).memory_token,
    {
        let count = match self.trace_record.get(&syscall_id) {
            Some(count) => *count,
            None => 0,
        };
        self.trace_record.insert(syscall_id, count + 1);
        proof {
            reveal_with_fuel(stepped, 2);
            assert(seq![syscall_id].drop_last() =~= Seq::<usize>::empty());
        }
    }
}

/// The count that `record` keeps for system call `id`, zero when none.
pub open spec fn count_of(record: Map<usize, usize>, id: usize) -> nat {
    if record.contains_key(id) {
        record[id] as nat
    } else {
        0
    }
}

/// The record after counting the system calls `calls` in order, one step each.
pub open spec fn stepped(record: Map<usize, usize>, calls: Seq<usize>) -> Map<usize, usize>
    decreases calls.len(),
{
    if calls.len() == 0 {
        record
    } else {
        let r = stepped(record, calls.drop_last());
        r.insert(calls.last(), (count_of(r, calls.last()) + 1) as usize)
    }
}

/// How many times `id` occurs in `calls`.
pub open spec fn occurrences(calls: Seq<usize>, id: usize) -> nat
    decreases calls.len(),
{
    if calls.len() == 0 {
        0
    } else {
        occurrences(calls.drop_last(), id) + if calls.last() == id { 1nat } else { 0nat }
    }
}

/// Counting the calls `calls` one after the other, as `trace_syscall_step`
/// does, raises the count of each system call by the number of times it was
/// made, whatever other calls come between.
pub proof fn lemma_trace_counts(record: Map<usize, usize>, calls: Seq<usize>, id: usize)
    requires
        count_of(record, id) + occurrences(calls, id) <= usize::MAX,
    ensures
        count_of(stepped(record, calls), id) == count_of(record, id) + occurrences(calls, id),
    decreases calls.len(),
{
    if calls.len() > 0 {
        lemma_trace_counts(record, calls.drop_last(), id);
    }
}

/// Moving the program break by `size` and then by `back == -size` brings it
/// back where it was, when the break reads as a nonnegative number throughout.
pub proof fn lemma_brk_round_trip(program_brk: usize, size: i32, back: i32)
    requires
        program_brk <= isize::MAX,
        back == -size,
        0 <= requested_brk(program_brk, size) <= isize::MAX,
    ensures
        requested_brk(requested_brk(program_brk, size) as usize, back) == program_brk,
{
}

} // verus!
