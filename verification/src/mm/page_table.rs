//! SV39 page table entries and their flags.
use vstd::prelude::*;
use crate::mm::address::{
    PhysAddr, PhysPageNum, VirtAddr, VirtPageNum, PAGE_SIZE, VA_MASK, va_from, vpn_index,
};
use crate::mm::frame_allocator::{
    FrameAllocatorState, FrameTracker, PhysMemory, StackFrameAllocator, PPN_LIMIT, covers, frame_alloc,
    frames_left, frames_wf, zero_frame, lemma_alloc_hands_out_free_frame,
};

verus! {

/// Valid flag bit.
pub const PTE_V: u8 = 0x1;
/// Readable flag bit.
pub const PTE_R: u8 = 0x2;
/// Writable flag bit.
pub const PTE_W: u8 = 0x4;
/// Executable flag bit.
pub const PTE_X: u8 = 0x8;
/// User flag bit.
pub const PTE_U: u8 = 0x10;
/// Global flag bit.
pub const PTE_G: u8 = 0x20;
/// Accessed flag bit.
pub const PTE_A: u8 = 0x40;
/// Dirty flag bit.
pub const PTE_D: u8 = 0x80;

/// Mask of the bits of a physical page number.
pub const PPN_MASK: u64 = 0xfff_ffff_ffff;

/// Page table entry flags: the low eight bits of an entry, every one of them
/// a defined flag.
#[derive(Clone, Copy, Debug, PartialEq, Eq, Structural)]
pub struct PTEFlags {
    pub bits: u8,
}

impl PTEFlags {
    /// No flag set.
    pub fn empty() -> (r: Self)
        ensures
            r.bits == 0,
    {
        PTEFlags { bits: 0 }
    }

    /// The flags with the given bits; every bit of a `u8` is a defined flag,
    /// so this always succeeds.
    pub fn from_bits(bits: u8) -> (r: Option<Self>)
        ensures
            r == Some(PTEFlags { bits }),
    {
        Some(PTEFlags { bits })
    }

    /// The flags set in both.
    pub fn intersection(self, other: Self) -> (r: Self)
        ensures
            r.bits == self.bits & other.bits,
    {
        PTEFlags { bits: self.bits & other.bits }
    }

    /// The flags set in either.
    pub fn union(self, other: Self) -> (r: Self)
        ensures
            r.bits == self.bits | other.bits,
    {
        PTEFlags { bits: self.bits | other.bits }
    }

    /// Is every flag of `other` set here?
    pub fn contains(self, other: Self) -> (r: bool)
        ensures
            r == (self.bits & other.bits == other.bits),
    {
        self.bits & other.bits == other.bits
    }
}

/// Page table entry: physical page number in bits 10..54, flags in bits 0..8.
/// An entry is one 64-bit word of an SV39 page table.
#[derive(Clone, Copy, Debug, PartialEq, Eq, Structural)]
pub struct PageTableEntry {
    /// bits of page table entry
    pub bits: u64,
}

/// The physical page number that entry bits `bits` point to.
pub open spec fn entry_ppn(bits: u64) -> u64 {
    (bits >> 10) & PPN_MASK
}

/// Whether flag bit `flag` is set in entry bits `bits`.
pub open spec fn entry_has(bits: u64, flag: u8) -> bool {
    (bits as u8) & flag != 0
}

impl PageTableEntry {
    /// An entry pointing to `ppn` with `flags`.
    pub fn new(ppn: PhysPageNum, flags: PTEFlags) -> (r: Self)
        ensures
            r.bits == ((ppn.0 as u64) << 10) | (flags.bits as u64),
    {
        PageTableEntry { bits: (ppn.0 as u64) << 10 | flags.bits as u64 }
    }

    /// An entry with no bit set.
    pub fn empty() -> (r: Self)
        ensures
            r.bits == 0,
    {
        PageTableEntry { bits: 0 }
    }

    /// The physical page number the entry points to.
    pub fn ppn(&self) -> (r: PhysPageNum)
        ensures
            r.0 == entry_ppn(self.bits) as usize,
    {
        PhysPageNum((self.bits >> 10 & PPN_MASK) as usize)
    }

    /// The flags of the entry.
    pub fn flags(&self) -> (r: PTEFlags)
        ensures
            r.bits == self.bits as u8,
    {
        PTEFlags::from_bits(self.bits as u8).unwrap()
    }

    /// Is the entry valid?
    pub fn is_valid(&self) -> (r: bool)
        ensures
            r == entry_has(self.bits, PTE_V),
    {
        self.flags().intersection(PTEFlags { bits: PTE_V }) != PTEFlags::empty()
    }

    /// Is the page readable?
    pub fn readable(&self) -> (r: bool)
        ensures
            r == entry_has(self.bits, PTE_R),
    {
        self.flags().intersection(PTEFlags { bits: PTE_R }) != PTEFlags::empty()
    }

    /// Is the page writable?
    pub fn writable(&self) -> (r: bool)
        ensures
            r == entry_has(self.bits, PTE_W),
    {
        self.flags().intersection(PTEFlags { bits: PTE_W }) != PTEFlags::empty()
    }

    /// May the user access the page?
    pub fn is_user(&self) -> (r: bool)
        ensures
            r == entry_has(self.bits, PTE_U),
    {
        self.flags().intersection(PTEFlags { bits: PTE_U }) != PTEFlags::empty()
    }

    /// Is the page executable?
    pub fn executable(&self) -> (r: bool)
        ensures
            r == entry_has(self.bits, PTE_X),
    {
        self.flags().intersection(PTEFlags { bits: PTE_X }) != PTEFlags::empty()
    }
}

/// An entry made from a page number and flags gives back the page number
/// (cut to its 44 bits) and exactly those flags.
pub proof fn lemma_entry_round_trip(ppn: u64, flags: u8)
    ensures
        entry_ppn((ppn << 10) | (flags as u64)) == ppn & PPN_MASK,
        (((ppn << 10) | (flags as u64)) as u8) == flags,
        forall|f: u8| #[trigger] entry_has((ppn << 10) | (flags as u64), f) == (flags & f != 0),
{
    let b = (ppn << 10) | (flags as u64);
    assert(((b >> 10) & 0xfff_ffff_ffffu64) == ppn & 0xfff_ffff_ffffu64) by (bit_vector)
        requires b == (ppn << 10) | (flags as u64), flags < 256;
    assert((b as u8) == flags) by (bit_vector)
        requires b == (ppn << 10) | (flags as u64);
}

/// The empty entry is neither valid, readable, writable nor executable.
pub proof fn lemma_empty_entry_has_no_flag()
    ensures
        forall|f: u8| !#[trigger] entry_has(0u64, f),
{
    assert forall|f: u8| !#[trigger] entry_has(0u64, f) by {
        assert((0u64 as u8) & f == 0) by (bit_vector);
    }
}

/// Is the entry valid?
pub open spec fn valid(e: PageTableEntry) -> bool {
    entry_has(e.bits, PTE_V)
}

/// The frame a valid entry of a non-leaf table points to.
pub open spec fn next_ppn(e: PageTableEntry) -> usize {
    entry_ppn(e.bits) as usize
}

/// Where the leaf entry of page `vpn` lies in the page table rooted at
/// `root`: the frame of the level 2 table and the index in it; `None` when
/// the walk meets an invalid entry at level 0 or 1.
pub open spec fn leaf_slot(mem: Seq<Seq<PageTableEntry>>, root: usize, vpn: usize) -> Option<(usize, usize)> {
    let e0 = mem[root as int][vpn_index(vpn, 0) as int];
    if !valid(e0) {
        None
    } else {
        let e1 = mem[next_ppn(e0) as int][vpn_index(vpn, 1) as int];
        if !valid(e1) {
            None
        } else {
            Some((next_ppn(e1), vpn_index(vpn, 2)))
        }
    }
}

/// The leaf entry of page `vpn`, if the walk reaches one.
pub open spec fn translation(mem: Seq<Seq<PageTableEntry>>, root: usize, vpn: usize) -> Option<PageTableEntry> {
    match leaf_slot(mem, root, vpn) {
        Some((p, i)) => Some(mem[p as int][i as int]),
        None => None,
    }
}

/// Every table that the walk for `vpn` reads lies in `mem`.
pub open spec fn walk_in_memory(mem: Seq<Seq<PageTableEntry>>, root: usize, vpn: usize) -> bool {
    let e0 = mem[root as int][vpn_index(vpn, 0) as int];
    let e1 = mem[next_ppn(e0) as int][vpn_index(vpn, 1) as int];
    &&& frames_wf(mem)
    &&& root < mem.len()
    &&& valid(e0) ==> next_ppn(e0) < mem.len()
    &&& valid(e0) && valid(e1) ==> next_ppn(e1) < mem.len()
}

/// How many frames making the walk for `vpn` complete takes.
pub open spec fn frames_needed(mem: Seq<Seq<PageTableEntry>>, root: usize, vpn: usize) -> int {
    let e0 = mem[root as int][vpn_index(vpn, 0) as int];
    if !valid(e0) {
        2
    } else if !valid(mem[next_ppn(e0) as int][vpn_index(vpn, 1) as int]) {
        1
    } else {
        0
    }
}

/// An entry pointing to `ppn` with flag bits `flags`, as bits.
pub open spec fn entry_bits(ppn: usize, flags: u8) -> u64 {
    ((ppn as u64) << 10) | (flags as u64)
}

/// `mem` with frame `f` cleared to be a new table and entry `idx` of table
/// `ppn` pointing to it with only the valid flag.
pub open spec fn linked_mem(mem: Seq<Seq<PageTableEntry>>, ppn: usize, idx: int, f: usize) -> Seq<Seq<PageTableEntry>> {
    mem.update(f as int, zero_frame()).update(ppn as int, mem[ppn as int].update(idx, PageTableEntry { bits: entry_bits(f, PTE_V) }))
}

/// Memory after the walk for `vpn` from `root` has been completed: each
/// table missing on the way is a new cleared frame taken from the allocator,
/// linked by an entry with only the valid flag.
pub open spec fn path_mem(mem: Seq<Seq<PageTableEntry>>, alloc: FrameAllocatorState, root: usize, vpn: usize)
    -> Seq<Seq<PageTableEntry>>
{
    let i0 = vpn_index(vpn, 0) as int;
    let i1 = vpn_index(vpn, 1) as int;
    let fresh0 = !valid(mem[root as int][i0]);
    let m1 = if fresh0 { linked_mem(mem, root, i0, alloc.next_frame()->0) } else { mem };
    let a1 = if fresh0 { alloc.after_alloc() } else { alloc };
    let p1 = next_ppn(m1[root as int][i0]);
    if !valid(m1[p1 as int][i1]) { linked_mem(m1, p1, i1, a1.next_frame()->0) } else { m1 }
}

/// The frames that completing the walk for `vpn` from `root` takes from the
/// allocator, in the order taken.
pub open spec fn path_frames(mem: Seq<Seq<PageTableEntry>>, alloc: FrameAllocatorState, root: usize, vpn: usize)
    -> Seq<usize>
{
    let i0 = vpn_index(vpn, 0) as int;
    let i1 = vpn_index(vpn, 1) as int;
    let fresh0 = !valid(mem[root as int][i0]);
    let m1 = if fresh0 { linked_mem(mem, root, i0, alloc.next_frame()->0) } else { mem };
    let a1 = if fresh0 { alloc.after_alloc() } else { alloc };
    let n1 = if fresh0 { seq![alloc.next_frame()->0] } else { Seq::<usize>::empty() };
    let p1 = next_ppn(m1[root as int][i0]);
    if !valid(m1[p1 as int][i1]) { n1.push(a1.next_frame()->0) } else { n1 }
}

/// The table frames `lv` with their levels form a page table rooted at
/// `root` in `mem`: the root has level 0, and a valid entry of a table of
/// level 0 or 1 points to a table frame one level below.
pub open spec fn levels_ok(mem: Seq<Seq<PageTableEntry>>, lv: Map<usize, nat>, root: usize) -> bool {
    &&& frames_wf(mem)
    &&& lv.contains_key(root)
    &&& lv[root] == 0
    &&& forall|p: usize| #[trigger] lv.contains_key(p) ==> p < mem.len() && lv[p] <= 2
    &&& forall|p: usize, i: int| #![trigger lv[p], mem[p as int][i]]
        lv.contains_key(p) && lv[p] < 2 && 0 <= i < 512 && valid(mem[p as int][i]) ==> {
            &&& lv.contains_key(next_ppn(mem[p as int][i]))
            &&& lv[next_ppn(mem[p as int][i])] == lv[p] + 1
        }
}

proof fn lemma_vpn_index_bound(vpn: usize)
    ensures
        vpn_index(vpn, 0) < 512,
        vpn_index(vpn, 1) < 512,
        vpn_index(vpn, 2) < 512,
{
    assert(vpn & 511 < 512 && (vpn >> 9usize) & 511 < 512 && (vpn >> 18usize) & 511 < 512) by (bit_vector);
}

/// In a well formed page table the walk for any page stays in memory, and
/// the leaf entry lies in a table of level 2.
proof fn lemma_walk_levels(mem: Seq<Seq<PageTableEntry>>, lv: Map<usize, nat>, root: usize, vpn: usize)
    requires
        levels_ok(mem, lv, root),
    ensures
        walk_in_memory(mem, root, vpn),
        ({
            let e0 = mem[root as int][vpn_index(vpn, 0) as int];
            valid(e0) ==> lv.contains_key(next_ppn(e0)) && lv[next_ppn(e0)] == 1
        }),
        leaf_slot(mem, root, vpn) matches Some((p, i)) ==> lv.contains_key(p) && lv[p] == 2 && i < 512,
{
    lemma_vpn_index_bound(vpn);
    let i0 = vpn_index(vpn, 0) as int;
    let i1 = vpn_index(vpn, 1) as int;
    let e0 = mem[root as int][i0];
    assert(lv.contains_key(root));
    assert(lv[root] == 0);
    if valid(e0) {
        let p1 = next_ppn(e0);
        assert(lv.contains_key(p1) && lv[p1] == 1);
        let e1 = mem[p1 as int][i1];
        if valid(e1) {
            assert(lv.contains_key(next_ppn(e1)) && lv[next_ppn(e1)] == 2);
        }
    }
}

/// A frame number below 2^44 written into an entry with the valid flag gives
/// a valid entry that points to it.
proof fn lemma_link_entry(f: usize)
    requires
        f < PPN_LIMIT,
    ensures
        valid(PageTableEntry { bits: entry_bits(f, PTE_V) }),
        next_ppn(PageTableEntry { bits: entry_bits(f, PTE_V) }) == f,
{
    let x = f as u64;
    lemma_entry_round_trip(x, PTE_V);
    assert(PTE_V == 1u8);
    assert((((x << 10u64) | 1u64) as u8) & 1u8 != 0) by (bit_vector);
    assert(entry_bits(f, PTE_V) == (x << 10u64) | 1u64);
    assert(x & 0xfff_ffff_ffffu64 == x) by (bit_vector)
        requires x < 0x1000_0000_0000u64;
}

/// Changing memory only in a frame outside the table frames and in an entry
/// of a level 0 or 1 table that was invalid keeps the walk of every page that
/// reached a leaf before.
proof fn lemma_walk_kept(mem: Seq<Seq<PageTableEntry>>, mem2: Seq<Seq<PageTableEntry>>, lv: Map<usize, nat>,
    root: usize, f: usize, ppn: usize, idx: int, vpn: usize)
    requires
        levels_ok(mem, lv, root),
        leaf_slot(mem, root, vpn) is Some,
        !lv.contains_key(f),
        lv.contains_key(ppn),
        lv[ppn] < 2,
        0 <= idx < 512,
        !valid(mem[ppn as int][idx]),
        mem2.len() == mem.len(),
        forall|p: int| 0 <= p < mem.len() && p != f && p != ppn ==> #[trigger] mem2[p] == mem[p],
        forall|i: int| 0 <= i < 512 && i != idx ==> #[trigger] mem2[ppn as int][i] == mem[ppn as int][i],
    ensures
        leaf_slot(mem2, root, vpn) == leaf_slot(mem, root, vpn),
        translation(mem2, root, vpn) == translation(mem, root, vpn),
{
    lemma_walk_levels(mem, lv, root, vpn);
    lemma_vpn_index_bound(vpn);
    let i0 = vpn_index(vpn, 0) as int;
    let i1 = vpn_index(vpn, 1) as int;
    let e0 = mem[root as int][i0];
    let p1 = next_ppn(e0);
    let e1 = mem[p1 as int][i1];
    assert(valid(e0) && valid(e1));
    assert(lv.contains_key(p1) && lv[p1] == 1);
    assert(mem2[root as int][i0] == e0);
    assert(mem2[p1 as int][i1] == e1);
    let p2 = next_ppn(e1);
    assert(lv.contains_key(p2) && lv[p2] == 2);
    assert(mem2[p2 as int] == mem[p2 as int]);
}

/// Writing the leaf entry of page `vpn` keeps the tables well formed, makes
/// the new entry the translation of `vpn`, and keeps the translation of every
/// page whose leaf entry lies elsewhere.
proof fn lemma_leaf_write(mem: Seq<Seq<PageTableEntry>>, lv: Map<usize, nat>, root: usize, vpn: usize,
    pte: PageTableEntry)
    requires
        levels_ok(mem, lv, root),
        leaf_slot(mem, root, vpn) is Some,
    ensures
        ({
            let (tp, ti) = leaf_slot(mem, root, vpn)->0;
            let m2 = mem.update(tp as int, mem[tp as int].update(ti as int, pte));
            &&& levels_ok(m2, lv, root)
            &&& leaf_slot(m2, root, vpn) == leaf_slot(mem, root, vpn)
            &&& translation(m2, root, vpn) == Some(pte)
            &&& forall|v: usize| #[trigger] leaf_slot(mem, root, v) is Some
                && leaf_slot(mem, root, v) != leaf_slot(mem, root, vpn) ==>
                translation(m2, root, v) == translation(mem, root, v)
        }),
{
    let (tp, ti) = leaf_slot(mem, root, vpn)->0;
    let m2 = mem.update(tp as int, mem[tp as int].update(ti as int, pte));
    lemma_walk_levels(mem, lv, root, vpn);
    lemma_vpn_index_bound(vpn);
    let i0 = vpn_index(vpn, 0) as int;
    let i1 = vpn_index(vpn, 1) as int;
    let p1 = next_ppn(mem[root as int][i0]);
    assert(lv[tp] == 2 && lv[root] == 0 && lv[p1] == 1);
    assert(m2[root as int][i0] == mem[root as int][i0]);
    assert(m2[p1 as int][i1] == mem[p1 as int][i1]);
    assert forall|p: int| 0 <= p < m2.len() implies (#[trigger] m2[p]).len() == 512 by {
        assert(mem[p].len() == 512);
    }
    assert forall|p: usize, i: int| #![trigger lv[p], m2[p as int][i]]
        lv.contains_key(p) && lv[p] < 2 && 0 <= i < 512 && valid(m2[p as int][i]) implies {
            &&& lv.contains_key(next_ppn(m2[p as int][i]))
            &&& lv[next_ppn(m2[p as int][i])] == lv[p] + 1
        } by {
        assert(p != tp);
        assert(m2[p as int][i] == mem[p as int][i]);
    }
    assert forall|v: usize| #[trigger] leaf_slot(mem, root, v) is Some
        && leaf_slot(mem, root, v) != leaf_slot(mem, root, vpn) implies
        translation(m2, root, v) == translation(mem, root, v) by {
        lemma_walk_levels(mem, lv, root, v);
        let j0 = vpn_index(v, 0) as int;
        let j1 = vpn_index(v, 1) as int;
        lemma_vpn_index_bound(v);
        let q1 = next_ppn(mem[root as int][j0]);
        assert(m2[root as int][j0] == mem[root as int][j0]);
        assert(lv[q1] == 1);
        assert(m2[q1 as int][j1] == mem[q1 as int][j1]);
    }
}

/// page table structure
pub struct PageTable {
    root_ppn: PhysPageNum,
    frames: Vec<FrameTracker>,
    /// The level of each table frame: 0 for the root, 1 and 2 below it.
    levels: Ghost<Map<usize, nat>>,
}

impl PageTable {
    /// The frame of the root table.
    pub closed spec fn root(&self) -> usize {
        self.root_ppn.0
    }

    /// The frames that hold the tables of this page table.
    pub closed spec fn table_frames(&self) -> Set<usize> {
        self.levels@.dom()
    }

    /// The frames that the table owns.
    pub closed spec fn owned(&self) -> Seq<PhysPageNum> {
        self.frames@.map_values(|f: FrameTracker| f.ppn)
    }

    /// The tables are well formed in `mem`: each table frame has a level, the
    /// root level 0, and a valid entry of a table of level 0 or 1 points to a
    /// table frame one level below.
    pub closed spec fn tables_wf(&self, mem: Seq<Seq<PageTableEntry>>) -> bool {
        &&& levels_ok(mem, self.levels@, self.root_ppn.0)
        &&& forall|k: int| 0 <= k < self.frames@.len() ==> self.levels@.contains_key(#[trigger] self.frames@[k].ppn.0)
    }

    /// Every table frame is in use at `alloc`, so the allocator hands out
    /// none of them.
    pub closed spec fn frames_in_use(&self, alloc: FrameAllocatorState) -> bool {
        forall|p: usize| #[trigger] self.levels@.contains_key(p) ==> alloc.in_use(p)
    }

    /// The walk for `vpn` from this table's root stays in memory.
    pub proof fn lemma_walks_in_memory(&self, mem: Seq<Seq<PageTableEntry>>, vpn: usize)
        requires
            self.tables_wf(mem),
        ensures
            walk_in_memory(mem, self.root(), vpn),
    {
        lemma_walk_levels(mem, self.levels@, self.root_ppn.0, vpn);
    }

    /// One level of the walk that creates what is missing: the entry `idx`
    /// of table frame `ppn`, made to point to a new cleared table frame if it
    /// is not valid; gives the frame the entry points to.
    fn step_create(&mut self, ppn: PhysPageNum, idx: usize, allocator: &mut StackFrameAllocator, mem: &mut PhysMemory)
        -> (r: PhysPageNum)
        requires
            old(self).tables_wf(old(mem)@),
            old(self).frames_in_use(old(allocator)@),
            covers(old(mem)@, old(allocator)@),
            old(allocator)@.wf(),
            old(self).levels@.contains_key(ppn.0),
            old(self).levels@[ppn.0] < 2,
            idx < 512,
            !valid(old(mem)@[ppn.0 as int][idx as int]) ==> frames_left(old(allocator)@) >= 1,
        ensures
            final(self).tables_wf(final(mem)@),
            final(self).frames_in_use(final(allocator)@),
            covers(final(mem)@, final(allocator)@),
            final(allocator)@.wf(),
            final(self).root() == old(self).root(),
            final(self).levels@.contains_key(r.0),
            final(self).levels@[r.0] == old(self).levels@[ppn.0] + 1,
            valid(final(mem)@[ppn.0 as int][idx as int]),
            next_ppn(final(mem)@[ppn.0 as int][idx as int]) == r.0,
            forall|p: usize| #[trigger] old(self).levels@.contains_key(p) ==>
                final(self).levels@.contains_key(p) && final(self).levels@[p] == old(self).levels@[p],
            forall|p: int| 0 <= p < old(mem)@.len() && !final(self).levels@.contains_key(p as usize) ==>
                #[trigger] final(mem)@[p] == old(mem)@[p],
            final(mem)@.len() == old(mem)@.len(),
            valid(old(mem)@[ppn.0 as int][idx as int]) ==> {
                &&& final(mem)@ == old(mem)@
                &&& final(allocator)@ == old(allocator)@
                &&& final(self).table_frames() == old(self).table_frames()
                &&& final(self).owned() == old(self).owned()
                &&& r.0 == next_ppn(old(mem)@[ppn.0 as int][idx as int])
            },
            !valid(old(mem)@[ppn.0 as int][idx as int]) ==> {
                let f = old(allocator)@.next_frame()->0;
                &&& old(allocator)@.next_frame() is Some
                &&& !old(self).levels@.contains_key(f)
                &&& r.0 == f
                &&& final(allocator)@ == old(allocator)@.after_alloc()
                &&& frames_left(final(allocator)@) == frames_left(old(allocator)@) - 1
                &&& final(self).table_frames() == old(self).table_frames().insert(f)
                &&& final(self).owned() == old(self).owned().push(PhysPageNum(f))
                &&& final(mem)@ == linked_mem(old(mem)@, ppn.0, idx as int, f)
            },
    {
        proof {
            lemma_walk_levels(old(mem)@, self.levels@, self.root_ppn.0, 0);
        }
        let pte = mem.read(ppn, idx);
        if pte.is_valid() {
            proof {
                let e = pte;
                assert(self.levels@.contains_key(next_ppn(e)));
            }
            return pte.ppn();
        }
        let ghost lv = self.levels@;
        let ghost mem0 = mem@;
        let ghost a0 = allocator@;
        proof {
            assert(a0.next_frame() is Some);
            lemma_alloc_hands_out_free_frame(a0);
        }
        let frame = frame_alloc(allocator, mem).unwrap();
        let f = frame.ppn;
        let ghost mem1 = mem@;
        proof {
            assert(f.0 < mem0.len());
            if lv.contains_key(f.0) {
                assert(a0.in_use(f.0));
            }
            lemma_link_entry(f.0);
        }
        let new_pte = PageTableEntry::new(f, PTEFlags { bits: PTE_V });
        mem.write(ppn, idx, new_pte);
        self.frames.push(frame);
        proof {
            self.levels@ = lv.insert(f.0, lv[ppn.0] + 1);
            let lv2 = self.levels@;
            let m2 = mem@;
            assert(ppn.0 != f.0);
            assert(m2[f.0 as int] == zero_frame());
            assert forall|p: usize, i: int| #![trigger lv2[p], m2[p as int][i]]
                lv2.contains_key(p) && lv2[p] < 2 && 0 <= i < 512 && valid(m2[p as int][i]) implies {
                    &&& lv2.contains_key(next_ppn(m2[p as int][i]))
                    &&& lv2[next_ppn(m2[p as int][i])] == lv2[p] + 1
                } by {
                if p == f.0 {
                    assert(m2[p as int][i] == (PageTableEntry { bits: 0 }));
                    assert(!valid(PageTableEntry { bits: 0 })) by {
                        lemma_empty_entry_has_no_flag();
                    }
                } else if p == ppn.0 && i == idx {
                } else {
                    assert(m2[p as int][i] == mem0[p as int][i]);
                    assert(lv[p] < 2);
                }
            }
            assert forall|p: usize| #[trigger] lv2.contains_key(p) implies p < m2.len() && lv2[p] <= 2 by {
                if p != f.0 {
                    assert(lv.contains_key(p));
                }
            }
            assert forall|k: int| 0 <= k < self.frames@.len() implies lv2.contains_key(#[trigger] self.frames@[k].ppn.0) by {
                if k < self.frames@.len() - 1 {
                    assert(self.frames@[k] == old(self).frames@[k]);
                }
            }
            assert forall|p: usize| #[trigger] lv2.contains_key(p) implies allocator@.in_use(p) by {
                if p != f.0 {
                    assert(lv.contains_key(p));
                    assert(a0.in_use(p));
                    if a0.recycled.len() > 0 {
                        if allocator@.recycled.contains(p) {
                            let j = choose|j: int| 0 <= j < allocator@.recycled.len() && allocator@.recycled[j] == p;
                            assert(a0.recycled[j] == p);
                        }
                    }
                }
            }
            assert(m2 == linked_mem(mem0, ppn.0, idx as int, f.0));
            assert(self.owned() =~= old(self).owned().push(f));
        }
        f
    }

    /// Create a new page table: a cleared root frame from the allocator.
    pub fn new(allocator: &mut StackFrameAllocator, mem: &mut PhysMemory) -> (r: Self)
        requires
            covers(old(mem)@, old(allocator)@),
            frames_wf(old(mem)@),
            old(allocator)@.wf(),
            frames_left(old(allocator)@) >= 1,
        ensures
            r.tables_wf(final(mem)@),
            r.frames_in_use(final(allocator)@),
            covers(final(mem)@, final(allocator)@),
            final(allocator)@.wf(),
            final(allocator)@ == old(allocator)@.after_alloc(),
            Some(r.root()) == old(allocator)@.next_frame(),
            r.table_frames() == set![r.root()],
            r.owned() == seq![PhysPageNum(r.root())],
            final(mem)@ == old(mem)@.update(r.root() as int, zero_frame()),
            forall|vpn: usize| #[trigger] translation(final(mem)@, r.root(), vpn) is None,
    {
        let ghost a0 = allocator@;
        proof {
            lemma_alloc_hands_out_free_frame(a0);
        }
        let frame = frame_alloc(allocator, mem).unwrap();
        let root_ppn = frame.ppn;
        let mut frames: Vec<FrameTracker> = Vec::new();
        frames.push(frame);
        let r = PageTable { root_ppn, frames, levels: Ghost(Map::empty().insert(root_ppn.0, 0nat)) };
        proof {
            let m = mem@;
            lemma_empty_entry_has_no_flag();
            assert forall|p: usize, i: int| #![trigger r.levels@[p], m[p as int][i]]
                r.levels@.contains_key(p) && r.levels@[p] < 2 && 0 <= i < 512 && valid(m[p as int][i]) implies {
                    &&& r.levels@.contains_key(next_ppn(m[p as int][i]))
                    &&& r.levels@[next_ppn(m[p as int][i])] == r.levels@[p] + 1
                } by {
                assert(m[p as int][i] == (PageTableEntry { bits: 0 }));
            }
            assert forall|vpn: usize| #[trigger] translation(m, r.root(), vpn) is None by {
                lemma_vpn_index_bound(vpn);
                assert(m[r.root() as int][vpn_index(vpn, 0) as int] == (PageTableEntry { bits: 0 }));
            }
        }
        r
    }

    /// Temporarily used to get arguments from user space: the page table
    /// whose root is the frame named in `satp`, owning no frames.
    pub fn from_token(satp: usize) -> (r: Self)
        ensures
            r.root() == ((satp as u64) & PPN_MASK) as usize,
            r.owned().len() == 0,
    {
        Self {
            root_ppn: PhysPageNum(((satp as u64) & PPN_MASK) as usize),
            frames: Vec::new(),
            levels: Ghost(Map::empty()),
        }
    }

    /// Find the leaf entry of `vpn`: the frame of its table and its index;
    /// `None` when an entry on the way is not valid.
    fn find_pte(&self, vpn: VirtPageNum, mem: &PhysMemory) -> (r: Option<(PhysPageNum, usize)>)
        requires
            walk_in_memory(mem@, self.root(), vpn.0),
        ensures
            r == match leaf_slot(mem@, self.root(), vpn.0) {
                Some((p, i)) => Some((PhysPageNum(p), i)),
                None => None::<(PhysPageNum, usize)>,
            },
    {
        proof {
            lemma_vpn_index_bound(vpn.0);
        }
        let idxs = vpn.indexes();
        let mut ppn = self.root_ppn;
        let pte = mem.read(ppn, idxs[0]);
        if !pte.is_valid() {
            return None;
        }
        ppn = pte.ppn();
        let pte = mem.read(ppn, idxs[1]);
        if !pte.is_valid() {
            return None;
        }
        ppn = pte.ppn();
        Some((ppn, idxs[2]))
    }

    /// Find the leaf entry of `vpn`, making a cleared table frame for each
    /// level whose entry is not valid yet.
    fn find_pte_create(&mut self, vpn: VirtPageNum, allocator: &mut StackFrameAllocator, mem: &mut PhysMemory)
        -> (r: Option<(PhysPageNum, usize)>)
        requires
            old(self).tables_wf(old(mem)@),
            old(self).frames_in_use(old(allocator)@),
            covers(old(mem)@, old(allocator)@),
            old(allocator)@.wf(),
            frames_left(old(allocator)@) >= frames_needed(old(mem)@, old(self).root(), vpn.0),
        ensures
            final(self).tables_wf(final(mem)@),
            final(self).frames_in_use(final(allocator)@),
            covers(final(mem)@, final(allocator)@),
            final(allocator)@.wf(),
            final(self).root() == old(self).root(),
            old(self).table_frames().subset_of(final(self).table_frames()),
            final(mem)@.len() == old(mem)@.len(),
            forall|p: int| 0 <= p < old(mem)@.len() && !final(self).table_frames().contains(p as usize) ==>
                #[trigger] final(mem)@[p] == old(mem)@[p],
            final(allocator)@ == old(allocator)@.after_allocs(frames_needed(old(mem)@, old(self).root(), vpn.0) as nat),
            frames_left(final(allocator)@) == frames_left(old(allocator)@) - frames_needed(old(mem)@, old(self).root(), vpn.0),
            leaf_slot(final(mem)@, final(self).root(), vpn.0) matches Some((p, i)) && r == Some((PhysPageNum(p), i)),
            leaf_slot(old(mem)@, old(self).root(), vpn.0) is Some ==> {
                &&& final(mem)@ == old(mem)@
                &&& final(allocator)@ == old(allocator)@
            },
            leaf_slot(old(mem)@, old(self).root(), vpn.0) is None ==>
                translation(final(mem)@, final(self).root(), vpn.0) == Some(PageTableEntry { bits: 0 }),
            ({
                let new_frames = path_frames(old(mem)@, old(allocator)@, old(self).root(), vpn.0);
                &&& final(mem)@ == path_mem(old(mem)@, old(allocator)@, old(self).root(), vpn.0)
                &&& final(self).table_frames() == old(self).table_frames() + new_frames.to_set()
                &&& final(self).owned() == old(self).owned() + new_frames.map_values(|f: usize| PhysPageNum(f))
            }),
            forall|v: usize| #[trigger] leaf_slot(old(mem)@, old(self).root(), v) is Some ==> {
                &&& leaf_slot(final(mem)@, final(self).root(), v) == leaf_slot(old(mem)@, old(self).root(), v)
                &&& translation(final(mem)@, final(self).root(), v) == translation(old(mem)@, old(self).root(), v)
            },
    {
        let ghost mem0 = mem@;
        let ghost lv0 = self.levels@;
        let ghost root = self.root_ppn.0;
        let ghost own0 = self.owned();
        let ghost tf0 = self.table_frames();
        let ghost a0 = allocator@;
        proof {
            lemma_vpn_index_bound(vpn.0);
            lemma_walk_levels(mem0, lv0, root, vpn.0);
            reveal_with_fuel(FrameAllocatorState::after_allocs, 3);
        }
        let idxs = vpn.indexes();
        let root_ppn = self.root_ppn;
        let p1 = self.step_create(root_ppn, idxs[0], allocator, mem);
        let ghost mem1 = mem@;
        let ghost lv1 = self.levels@;
        proof {
            lemma_empty_entry_has_no_flag();
            if !valid(mem0[root as int][idxs[0] as int]) {
                assert(mem1[p1.0 as int] == zero_frame());
                assert(!valid(mem1[p1.0 as int][idxs[1] as int]));
            } else {
                assert(mem1 == mem0);
            }
        }
        let p2 = self.step_create(p1, idxs[1], allocator, mem);
        let ghost mem2 = mem@;
        proof {
            let i0 = idxs[0] as int;
            let i1 = idxs[1] as int;
            assert(p1.0 != root);
            assert(mem2[root as int][i0] == mem1[root as int][i0]);
            assert(leaf_slot(mem2, root, vpn.0) == Some((p2.0, idxs[2])));
            if leaf_slot(mem0, root, vpn.0) is None {
                assert(!valid(mem1[p1.0 as int][i1]));
                assert(mem2[p2.0 as int] == zero_frame());
            }
            assert forall|v: usize| #[trigger] leaf_slot(mem0, root, v) is Some implies {
                &&& leaf_slot(mem2, root, v) == leaf_slot(mem0, root, v)
                &&& translation(mem2, root, v) == translation(mem0, root, v)
            } by {
                if !valid(mem0[root as int][i0]) {
                    let f = p1.0;
                    lemma_walk_kept(mem0, mem1, lv0, root, f, root, i0, v);
                }
                if !valid(mem1[p1.0 as int][i1]) {
                    lemma_walk_kept(mem1, mem2, lv1, root, p2.0, p1.0, i1, v);
                }
            }
            let nf = path_frames(mem0, a0, root, vpn.0);
            assert(mem2 == path_mem(mem0, a0, root, vpn.0));
            let f0 = a0.next_frame()->0;
            let f1 = (if !valid(mem0[root as int][i0]) { a0.after_alloc() } else { a0 }).next_frame()->0;
            let tf2 = self.table_frames();
            assert forall|x: usize| tf2.contains(x) <==> (tf0 + nf.to_set()).contains(x) by {
                if !valid(mem0[root as int][i0]) {
                    assert(nf[0] == f0);
                }
                if !valid(mem1[p1.0 as int][i1]) {
                    assert(nf[nf.len() - 1] == f1);
                }
                if nf.contains(x) {
                    let k = choose|k: int| 0 <= k < nf.len() && nf[k] == x;
                    assert(nf[k] == x);
                }
            }
            assert(self.table_frames() =~= tf0 + nf.to_set());
            assert(self.owned() =~= own0 + nf.map_values(|f: usize| PhysPageNum(f)));
        }
        Some((p2, idxs[2]))
    }

    /// Map page `vpn` to frame `ppn` with `flags` and the valid flag; the
    /// page must not be mapped yet.
    pub fn map(&mut self, vpn: VirtPageNum, ppn: PhysPageNum, flags: PTEFlags,
        allocator: &mut StackFrameAllocator, mem: &mut PhysMemory)
        requires
            old(self).tables_wf(old(mem)@),
            old(self).frames_in_use(old(allocator)@),
            covers(old(mem)@, old(allocator)@),
            old(allocator)@.wf(),
            frames_left(old(allocator)@) >= frames_needed(old(mem)@, old(self).root(), vpn.0),
            translation(old(mem)@, old(self).root(), vpn.0) matches Some(e) ==> !valid(e),
        ensures
            final(self).tables_wf(final(mem)@),
            final(self).frames_in_use(final(allocator)@),
            covers(final(mem)@, final(allocator)@),
            final(allocator)@.wf(),
            final(self).root() == old(self).root(),
            old(self).table_frames().subset_of(final(self).table_frames()),
            final(mem)@.len() == old(mem)@.len(),
            forall|p: int| 0 <= p < old(mem)@.len() && !final(self).table_frames().contains(p as usize) ==>
                #[trigger] final(mem)@[p] == old(mem)@[p],
            final(allocator)@ == old(allocator)@.after_allocs(frames_needed(old(mem)@, old(self).root(), vpn.0) as nat),
            frames_left(final(allocator)@) == frames_left(old(allocator)@) - frames_needed(old(mem)@, old(self).root(), vpn.0),
            translation(final(mem)@, final(self).root(), vpn.0)
                == Some(PageTableEntry { bits: entry_bits(ppn.0, flags.bits | PTE_V) }),
            ({
                let m = path_mem(old(mem)@, old(allocator)@, old(self).root(), vpn.0);
                let (tp, ti) = leaf_slot(m, old(self).root(), vpn.0)->0;
                final(mem)@ == m.update(tp as int, m[tp as int].update(ti as int,
                    PageTableEntry { bits: entry_bits(ppn.0, flags.bits | PTE_V) }))
            }),
            final(self).table_frames() == old(self).table_frames()
                + path_frames(old(mem)@, old(allocator)@, old(self).root(), vpn.0).to_set(),
            final(self).owned() == old(self).owned()
                + path_frames(old(mem)@, old(allocator)@, old(self).root(), vpn.0).map_values(|f: usize| PhysPageNum(f)),
            forall|v: usize| #[trigger] leaf_slot(old(mem)@, old(self).root(), v) is Some
                && leaf_slot(old(mem)@, old(self).root(), v) != leaf_slot(final(mem)@, final(self).root(), vpn.0) ==>
                translation(final(mem)@, final(self).root(), v) == translation(old(mem)@, old(self).root(), v),
    {
        let ghost mem0 = mem@;
        let ghost root = self.root_ppn.0;
        let slot = self.find_pte_create(vpn, allocator, mem);
        let (tp, ti) = slot.unwrap();
        let ghost mem1 = mem@;
        proof {
            lemma_walk_levels(mem1, self.levels@, root, vpn.0);
            if leaf_slot(mem0, root, vpn.0) is None {
                lemma_empty_entry_has_no_flag();
            }
        }
        let pte = PageTableEntry::new(ppn, flags.union(PTEFlags { bits: PTE_V }));
        mem.write(tp, ti, pte);
        proof {
            lemma_leaf_write(mem1, self.levels@, root, vpn.0, pte);
        }
    }

    /// Remove the mapping of page `vpn`: its leaf entry is cleared. False
    /// when the walk does not reach a leaf entry.
    pub fn unmap(&mut self, vpn: VirtPageNum, mem: &mut PhysMemory) -> (r: bool)
        requires
            old(self).tables_wf(old(mem)@),
        ensures
            final(self).tables_wf(final(mem)@),
            final(self).root() == old(self).root(),
            old(self).table_frames().subset_of(final(self).table_frames()),
            final(mem)@.len() == old(mem)@.len(),
            forall|p: int| 0 <= p < old(mem)@.len() && !final(self).table_frames().contains(p as usize) ==>
                #[trigger] final(mem)@[p] == old(mem)@[p],
            r == leaf_slot(old(mem)@, old(self).root(), vpn.0) is Some,
            !r ==> final(mem)@ == old(mem)@,
            r ==> translation(final(mem)@, final(self).root(), vpn.0) == Some(PageTableEntry { bits: 0 }),
            final(mem)@ == match leaf_slot(old(mem)@, old(self).root(), vpn.0) {
                Some((p, i)) => old(mem)@.update(p as int, old(mem)@[p as int].update(i as int, PageTableEntry { bits: 0 })),
                None => old(mem)@,
            },
            final(self).table_frames() == old(self).table_frames(),
            final(self).owned() == old(self).owned(),
            forall|v: usize| #[trigger] leaf_slot(old(mem)@, old(self).root(), v) is Some
                && leaf_slot(old(mem)@, old(self).root(), v) != leaf_slot(old(mem)@, old(self).root(), vpn.0) ==>
                translation(final(mem)@, final(self).root(), v) == translation(old(mem)@, old(self).root(), v),
    {
        let ghost mem0 = mem@;
        let ghost root = self.root_ppn.0;
        proof {
            lemma_walk_levels(mem0, self.levels@, root, vpn.0);
        }
        if let Some((tp, ti)) = self.find_pte(vpn, mem) {
            mem.write(tp, ti, PageTableEntry::empty());
            proof {
                lemma_leaf_write(mem0, self.levels@, root, vpn.0, PageTableEntry { bits: 0 });
            }
            true
        } else {
            false
        }
    }

    /// Does every table that the walk for `vpn` reads lie in `mem`?
    pub fn walk_fits(&self, vpn: VirtPageNum, mem: &PhysMemory) -> (r: bool)
        ensures
            r == walk_in_memory(mem@, self.root(), vpn.0),
    {
        proof {
            lemma_vpn_index_bound(vpn.0);
        }
        if !mem.is_wf() || self.root_ppn.0 >= mem.len() {
            return false;
        }
        let idxs = vpn.indexes();
        let e0 = mem.read(self.root_ppn, idxs[0]);
        if !e0.is_valid() {
            return true;
        }
        if e0.ppn().0 >= mem.len() {
            return false;
        }
        let e1 = mem.read(e0.ppn(), idxs[1]);
        !e1.is_valid() || e1.ppn().0 < mem.len()
    }

    /// get the page table entry from the virtual page number
    pub fn translate(&self, vpn: VirtPageNum, mem: &PhysMemory) -> (r: Option<PageTableEntry>)
        requires
            walk_in_memory(mem@, self.root(), vpn.0),
        ensures
            r == translation(mem@, self.root(), vpn.0),
    {
        proof {
            lemma_vpn_index_bound(vpn.0);
        }
        match self.find_pte(vpn, mem) {
            Some((p, i)) => Some(mem.read(p, i)),
            None => None,
        }
    }

    /// get the token from the page table: SV39 mode in the top four bits,
    /// the root frame below.
    pub fn token(&self) -> (r: usize)
        ensures
            r == ((0x8000_0000_0000_0000u64 | (self.root() as u64)) as usize),
    {
        let mode: u64 = 8u64 << 60u64;
        assert(mode == 0x8000_0000_0000_0000u64) by (bit_vector)
            requires mode == 8u64 << 60u64;
        (mode | (self.root_ppn.0 as u64)) as usize
    }
}

} // verus!

verus! {

/// The first address that SV39 cannot name.
pub const VA_END: u64 = 0x80_0000_0000;

/// A part of a user buffer that lies in one page: bytes `start..end` of
/// frame `ppn`.
#[derive(Clone, Copy, Debug, PartialEq, Eq, Structural)]
pub struct BufferSlice {
    pub ppn: PhysPageNum,
    pub start: usize,
    pub end: usize,
}

/// A copy of `len` bytes from kernel address `src` to physical address `dst`.
#[derive(Clone, Copy, Debug, PartialEq, Eq, Structural)]
pub struct UserCopy {
    pub dst: PhysAddr,
    pub src: usize,
    pub len: usize,
}

/// The page that address `a` lies in.
pub open spec fn page_of(a: usize) -> usize {
    a / 4096
}

/// The root frame named in a token.
pub open spec fn token_root(token: usize) -> usize {
    ((token as u64) & PPN_MASK) as usize
}

/// Where the part of `start..end` that lies in the page of `start` ends.
pub open spec fn chunk_end(start: int, end: int) -> int {
    let next_page = (start / 4096 + 1) * 4096;
    if end < next_page { end } else { next_page }
}

/// The offset in its page of a chunk end, 4096 for the end of a page.
pub open spec fn end_offset(ce: int) -> int {
    if ce % 4096 == 0 { 4096 } else { ce % 4096 }
}

/// How far `start` is below `end`.
pub open spec fn remaining(start: int, end: int) -> nat {
    if start < end { (end - start) as nat } else { 0 }
}

/// Does the entry map a page valid and readable?
pub open spec fn page_readable(e: PageTableEntry) -> bool {
    valid(e) && entry_has(e.bits, PTE_R)
}

/// Does the entry map a page writable?
pub open spec fn page_writable(e: PageTableEntry) -> bool {
    entry_has(e.bits, PTE_W)
}

/// The slices of user memory `start..end` in the address space rooted at
/// `root`, one per page in address order: the part of the page of `start`
/// from `start` on, then the rest of the buffer; `None` when a page of the
/// buffer is not mapped valid and readable.
pub open spec fn user_buffer(mem: Seq<Seq<PageTableEntry>>, root: usize, start: int, end: int) -> Option<Seq<BufferSlice>>
    decreases remaining(start, end),
{
    if start >= end || start < 0 {
        Some(Seq::empty())
    } else {
        match translation(mem, root, (start / 4096) as usize) {
            Some(e) => {
                if page_readable(e) {
                    let ce = chunk_end(start, end);
                    let slice = BufferSlice {
                        ppn: PhysPageNum(next_ppn(e)),
                        start: (start % 4096) as usize,
                        end: end_offset(ce) as usize,
                    };
                    match user_buffer(mem, root, ce, end) {
                        Some(r) => Some(seq![slice] + r),
                        None => None,
                    }
                } else {
                    None
                }
            },
            None => None,
        }
    }
}

/// The copies that writing `end - start` kernel bytes from `k_start` to user
/// memory at `start` makes, page by page in address order, and whether every
/// page was mapped writable; the copies stop at the first
/// page that is not.
pub open spec fn user_copies(mem: Seq<Seq<PageTableEntry>>, root: usize, start: int, k_start: int, end: int)
    -> (Seq<UserCopy>, bool)
    decreases remaining(start, end),
{
    if start >= end || start < 0 {
        (Seq::empty(), true)
    } else {
        match translation(mem, root, (start / 4096) as usize) {
            Some(e) => {
                if page_writable(e) {
                    let ce = chunk_end(start, end);
                    let copy = UserCopy {
                        dst: PhysAddr(((next_ppn(e) << 12usize) | ((start % 4096) as usize)) as usize),
                        src: k_start as usize,
                        len: (ce - start) as usize,
                    };
                    let rest = user_copies(mem, root, ce, k_start + (ce - start), end);
                    (seq![copy] + rest.0, rest.1)
                } else {
                    (Seq::empty(), false)
                }
            },
            None => (Seq::empty(), false),
        }
    }
}

/// Bytes that the slices hold, in all.
pub open spec fn slices_len(v: Seq<BufferSlice>) -> int
    decreases v.len(),
{
    if v.len() == 0 {
        0
    } else {
        (v[0].end - v[0].start) + slices_len(v.drop_first())
    }
}

/// Is the page that address `a` lies in mapped valid and readable?
pub open spec fn readable_at(mem: Seq<Seq<PageTableEntry>>, root: usize, a: int) -> bool {
    translation(mem, root, (a / 4096) as usize) matches Some(e) && page_readable(e)
}

proof fn lemma_chunk(start: int, end: int)
    requires
        0 <= start < end,
    ensures
        start < chunk_end(start, end) <= end,
        forall|a: int| start <= a < chunk_end(start, end) ==> #[trigger] (a / 4096) == start / 4096,
        end_offset(chunk_end(start, end)) - start % 4096 == chunk_end(start, end) - start,
        0 <= start % 4096 < end_offset(chunk_end(start, end)) <= 4096,
{
    let ce = chunk_end(start, end);
    let b = start / 4096;
    assert(b * 4096 <= start < (b + 1) * 4096 && start % 4096 == start - b * 4096) by (nonlinear_arith)
        requires b == start / 4096, 0 <= start;
    assert forall|a: int| start <= a < ce implies #[trigger] (a / 4096) == b by {
        assert(a / 4096 == b) by (nonlinear_arith)
            requires b * 4096 <= a < (b + 1) * 4096;
    }
    if ce == (b + 1) * 4096 {
        assert(ce % 4096 == 0) by (nonlinear_arith)
            requires ce == (b + 1) * 4096;
    } else {
        assert(ce % 4096 == ce - b * 4096) by (nonlinear_arith)
            requires b * 4096 <= ce < (b + 1) * 4096;
    }
}

/// The buffer `start..end` can be had exactly when the page of each of its
/// bytes is mapped valid and readable, and then its slices hold `end - start` bytes, each
/// slice within one page.
#[verifier::spinoff_prover]
pub proof fn lemma_user_buffer_whole(mem: Seq<Seq<PageTableEntry>>, root: usize, start: int, end: int)
    requires
        0 <= start,
    ensures
        user_buffer(mem, root, start, end) is Some <==> forall|a: int| start <= a < end ==> #[trigger] readable_at(mem, root, a),
        user_buffer(mem, root, start, end) matches Some(v) ==> {
            &&& slices_len(v) == if start < end { end - start } else { 0 }
            &&& forall|i: int| 0 <= i < v.len() ==> #[trigger] v[i].start < v[i].end <= 4096
        },
    decreases remaining(start, end),
{
    if start < end {
        lemma_chunk(start, end);
        let ce = chunk_end(start, end);
        lemma_user_buffer_whole(mem, root, ce, end);
        assert(readable_at(mem, root, start) == (translation(mem, root, (start / 4096) as usize) matches Some(e) && page_readable(e)));
        if user_buffer(mem, root, start, end) is Some {
            assert forall|a: int| start <= a < end implies #[trigger] readable_at(mem, root, a) by {
                if a < ce {
                    assert(a / 4096 == start / 4096);
                }
            }
            let v = user_buffer(mem, root, start, end)->0;
            let rest = user_buffer(mem, root, ce, end)->0;
            let e = translation(mem, root, (start / 4096) as usize)->0;
            assert(v[0] == BufferSlice {
                ppn: PhysPageNum(next_ppn(e)),
                start: (start % 4096) as usize,
                end: end_offset(ce) as usize,
            });
            assert(v.drop_first() =~= rest);
            assert(slices_len(v) == (v[0].end - v[0].start) + slices_len(rest));
            assert(slices_len(rest) == if ce < end { end - ce } else { 0 });
            assert(v[0].end - v[0].start == ce - start);
            assert(v[0].start == start % 4096 && v[0].end == end_offset(ce));
            assert forall|i: int| 0 <= i < v.len() implies #[trigger] v[i].start < v[i].end <= 4096 by {
                if i > 0 {
                    assert(v[i] == rest[i - 1]);
                }
            }
        } else {
            if forall|a: int| start <= a < end ==> #[trigger] readable_at(mem, root, a) {
                assert(readable_at(mem, root, start));
                assert forall|a: int| ce <= a < end implies #[trigger] readable_at(mem, root, a) by {
                    assert(readable_at(mem, root, a));
                }
            }
        }
    }
}

/// Bytes that the copies move, in all.
pub open spec fn copies_len(c: Seq<UserCopy>) -> int
    decreases c.len(),
{
    if c.len() == 0 {
        0
    } else {
        c[0].len + copies_len(c.drop_first())
    }
}

/// Is the page that address `a` lies in mapped writable?
pub open spec fn writable_at(mem: Seq<Seq<PageTableEntry>>, root: usize, a: int) -> bool {
    translation(mem, root, (a / 4096) as usize) matches Some(e) && page_writable(e)
}

/// Copying to `start..end` succeeds exactly when the page of each of its
/// bytes is mapped writable, and then the copies move `end - start` bytes.
#[verifier::spinoff_prover]
pub proof fn lemma_user_copies_whole(mem: Seq<Seq<PageTableEntry>>, root: usize, start: int, k_start: int, end: int)
    requires
        0 <= start,
    ensures
        user_copies(mem, root, start, k_start, end).1 <==> forall|a: int| start <= a < end ==> #[trigger] writable_at(mem, root, a),
        user_copies(mem, root, start, k_start, end).1 ==> copies_len(user_copies(mem, root, start, k_start, end).0)
            == if start < end { end - start } else { 0 },
    decreases remaining(start, end),
{
    if start < end {
        lemma_chunk(start, end);
        let ce = chunk_end(start, end);
        lemma_user_copies_whole(mem, root, ce, k_start + (ce - start), end);
        if user_copies(mem, root, start, k_start, end).1 {
            assert forall|a: int| start <= a < end implies #[trigger] writable_at(mem, root, a) by {
                if a < ce {
                    assert(a / 4096 == start / 4096);
                }
            }
            let c = user_copies(mem, root, start, k_start, end).0;
            let rest = user_copies(mem, root, ce, k_start + (ce - start), end).0;
            assert(c.drop_first() =~= rest);
        } else {
            if forall|a: int| start <= a < end ==> #[trigger] writable_at(mem, root, a) {
                assert(writable_at(mem, root, start));
                assert forall|a: int| ce <= a < end implies #[trigger] writable_at(mem, root, a) by {
                    assert(writable_at(mem, root, a));
                }
            }
        }
    }
}

/// Each copy takes the kernel bytes that match its user bytes: the source of
/// a copy lies as far after `k_start` as the copies before it moved, and
/// every copy moves at least one byte.
#[verifier::spinoff_prover]
pub proof fn lemma_copies_take_matching_kernel_bytes(mem: Seq<Seq<PageTableEntry>>, root: usize, start: int,
    k_start: int, end: int)
    requires
        0 <= start,
        0 <= k_start,
        k_start + remaining(start, end) <= usize::MAX,
    ensures
        ({
            let c = user_copies(mem, root, start, k_start, end).0;
            forall|i: int| 0 <= i < c.len() ==> {
                &&& #[trigger] c[i].src == k_start + copies_len(c.take(i))
                &&& c[i].len > 0
            }
        }),
    decreases remaining(start, end),
{
    if start < end {
        lemma_chunk(start, end);
        let ce = chunk_end(start, end);
        let k2 = k_start + (ce - start);
        lemma_copies_take_matching_kernel_bytes(mem, root, ce, k2, end);
        let c = user_copies(mem, root, start, k_start, end).0;
        let rest = user_copies(mem, root, ce, k2, end).0;
        match translation(mem, root, (start / 4096) as usize) {
            Some(e) => {
                if page_writable(e) {
                    let copy = UserCopy {
                        dst: PhysAddr(((next_ppn(e) << 12usize) | ((start % 4096) as usize)) as usize),
                        src: k_start as usize,
                        len: (ce - start) as usize,
                    };
                    assert(c == seq![copy] + rest);
                    assert(copy.src == k_start);
                    assert(copy.len == ce - start);
                    assert forall|i: int| 0 <= i < c.len() implies {
                        &&& #[trigger] c[i].src == k_start + copies_len(c.take(i))
                        &&& c[i].len > 0
                    } by {
                        if i == 0 {
                            assert(c[0] == copy);
                            assert(c.take(0) =~= Seq::<UserCopy>::empty());
                        } else {
                            assert(c[i] == rest[i - 1]);
                            assert(rest[i - 1].src == k2 + copies_len(rest.take(i - 1)));
                            assert(c.take(i).drop_first() =~= rest.take(i - 1));
                            assert(c.take(i)[0] == copy);
                            assert(copies_len(c.take(i)) == copy.len + copies_len(rest.take(i - 1)));
                        }
                    }
                } else {
                    assert(c.len() == 0);
                }
            },
            None => {
                assert(c.len() == 0);
            },
        }
    }
}

/// The frame that the page of address `a` is mapped to, if its walk reaches
/// a leaf entry.
pub open spec fn page_frame(mem: Seq<Seq<PageTableEntry>>, root: usize, a: int) -> Option<usize> {
    match translation(mem, root, (a / 4096) as usize) {
        Some(e) => Some(entry_ppn(e.bits) as usize),
        None => None,
    }
}

/// The physical address of user address `a`, if the walk of its page reaches
/// a leaf entry.
pub open spec fn phys_of(mem: Seq<Seq<PageTableEntry>>, root: usize, a: int) -> Option<usize> {
    match translation(mem, root, (a / 4096) as usize) {
        Some(e) => Some((((entry_ppn(e.bits) as usize) << 12usize) | ((a % 4096) as usize)) as usize),
        None => None,
    }
}

/// Each slice of a user buffer holds the user bytes that follow those of the
/// slices before it: it starts at the offset of its first user address in that
/// address's page, and lies in the frame that page is mapped to.
#[verifier::spinoff_prover]
pub proof fn lemma_slices_follow_user_bytes(mem: Seq<Seq<PageTableEntry>>, root: usize, start: int, end: int)
    requires
        0 <= start,
    ensures
        user_buffer(mem, root, start, end) matches Some(v) ==> forall|i: int| 0 <= i < v.len() ==> {
            let a = start + slices_len(v.take(i));
            &&& #[trigger] v[i].start == a % 4096
            &&& page_frame(mem, root, a) == Some(v[i].ppn.0)
        },
    decreases remaining(start, end),
{
    if start < end {
        lemma_chunk(start, end);
        let ce = chunk_end(start, end);
        lemma_slices_follow_user_bytes(mem, root, ce, end);
        if user_buffer(mem, root, start, end) is Some {
            let v = user_buffer(mem, root, start, end)->0;
            let rest = user_buffer(mem, root, ce, end)->0;
            let e = translation(mem, root, (start / 4096) as usize)->0;
            let slice = BufferSlice {
                ppn: PhysPageNum(next_ppn(e)),
                start: (start % 4096) as usize,
                end: end_offset(ce) as usize,
            };
            assert(v == seq![slice] + rest);
            assert forall|i: int| 0 <= i < v.len() implies {
                let a = start + slices_len(v.take(i));
                &&& #[trigger] v[i].start == a % 4096
                &&& page_frame(mem, root, a) == Some(v[i].ppn.0)
            } by {
                if i == 0 {
                    assert(v[0] == slice);
                    assert(v.take(0) =~= Seq::<BufferSlice>::empty());
                    assert(start + slices_len(v.take(0)) == start);
                    assert(page_frame(mem, root, start) == Some(next_ppn(e)));
                } else {
                    let a2 = ce + slices_len(rest.take(i - 1));
                    assert(rest[i - 1].start == a2 % 4096);
                    assert(page_frame(mem, root, a2) == Some(rest[i - 1].ppn.0));
                    assert(v[i] == rest[i - 1]);
                    assert(v.take(i).drop_first() =~= rest.take(i - 1));
                    assert(v.take(i)[0] == slice);
                    assert(slices_len(v.take(i)) == (slice.end - slice.start) + slices_len(rest.take(i - 1)));
                    assert(slice.end - slice.start == ce - start);
                    assert(start + slices_len(v.take(i)) == ce + slices_len(rest.take(i - 1)));
                }
            }
        }
    }
}

/// Each copy writes the user bytes that follow those of the copies before it:
/// its destination is the physical address of its first user address.
#[verifier::spinoff_prover]
pub proof fn lemma_copies_go_to_user_bytes(mem: Seq<Seq<PageTableEntry>>, root: usize, start: int, k_start: int, end: int)
    requires
        0 <= start,
    ensures
        ({
            let c = user_copies(mem, root, start, k_start, end).0;
            forall|i: int| #![trigger c[i]] 0 <= i < c.len() ==> {
                let a = start + copies_len(c.take(i));
                phys_of(mem, root, a) == Some(c[i].dst.0)
            }
        }),
    decreases remaining(start, end),
{
    if start < end {
        lemma_chunk(start, end);
        let ce = chunk_end(start, end);
        let k2 = k_start + (ce - start);
        lemma_copies_go_to_user_bytes(mem, root, ce, k2, end);
        let c = user_copies(mem, root, start, k_start, end).0;
        let rest = user_copies(mem, root, ce, k2, end).0;
        match translation(mem, root, (start / 4096) as usize) {
            Some(e) => {
                if page_writable(e) {
                    let copy = UserCopy {
                        dst: PhysAddr(((next_ppn(e) << 12usize) | ((start % 4096) as usize)) as usize),
                        src: k_start as usize,
                        len: (ce - start) as usize,
                    };
                    assert(c == seq![copy] + rest);
                    assert forall|i: int| #![trigger c[i]] 0 <= i < c.len() implies {
                        let a = start + copies_len(c.take(i));
                        phys_of(mem, root, a) == Some(c[i].dst.0)
                    } by {
                        if i == 0 {
                            assert(c[0] == copy);
                            assert(c.take(0) =~= Seq::<UserCopy>::empty());
                            assert(start + copies_len(c.take(0)) == start);
                            assert(phys_of(mem, root, start) == Some(copy.dst.0));
                        } else {
                            let a2 = ce + copies_len(rest.take(i - 1));
                            let d = rest[i - 1].dst.0;
                            assert(rest[i - 1] == c[i]);
                            assert(phys_of(mem, root, a2) == Some(d));
                            assert(c[i] == rest[i - 1]);
                            assert(c.take(i).drop_first() =~= rest.take(i - 1));
                            assert(c.take(i)[0] == copy);
                            assert(copies_len(c.take(i)) == copy.len + copies_len(rest.take(i - 1)));
                            assert(copy.len == ce - start);
                            assert(start + copies_len(c.take(i)) == ce + copies_len(rest.take(i - 1)));
                        }
                    }
                } else {
                    assert(c.len() == 0);
                }
            },
            None => {
                assert(c.len() == 0);
            },
        }
    } else {
        assert(user_copies(mem, root, start, k_start, end).0.len() == 0);
    }
}

/// A user buffer can be had exactly when every page it touches is mapped
/// with both the valid and the readable flag; an execute-only or a
/// write-only page gives none.
pub proof fn lemma_buffer_needs_valid_readable_pages(mem: Seq<Seq<PageTableEntry>>, root: usize, start: int, end: int)
    requires
        0 <= start,
    ensures
        user_buffer(mem, root, start, end) is Some <==> forall|a: int| start <= a < end ==>
            (#[trigger] translation(mem, root, (a / 4096) as usize) matches Some(x)
                && entry_has(x.bits, PTE_V) && entry_has(x.bits, PTE_R)),
{
    lemma_user_buffer_whole(mem, root, start, end);
    assert forall|a: int| start <= a < end implies (readable_at(mem, root, a) <==>
        (#[trigger] translation(mem, root, (a / 4096) as usize) matches Some(x)
            && entry_has(x.bits, PTE_V) && entry_has(x.bits, PTE_R))) by {}
}

/// Copying to user memory succeeds exactly when every page it touches is
/// mapped with the writable flag.
pub proof fn lemma_copy_needs_writable_pages(mem: Seq<Seq<PageTableEntry>>, root: usize, start: int, k_start: int, end: int)
    requires
        0 <= start,
    ensures
        user_copies(mem, root, start, k_start, end).1 <==> forall|a: int| start <= a < end ==>
            (#[trigger] translation(mem, root, (a / 4096) as usize) matches Some(x) && entry_has(x.bits, PTE_W)),
{
    lemma_user_copies_whole(mem, root, start, k_start, end);
    assert forall|a: int| start <= a < end implies (writable_at(mem, root, a) <==>
        (#[trigger] translation(mem, root, (a / 4096) as usize) matches Some(x) && entry_has(x.bits, PTE_W))) by {}
}

proof fn lemma_one_byte_chunk(va: int)
    requires
        0 <= va,
    ensures
        chunk_end(va, va + 1) == va + 1,
        end_offset(va + 1) == va % 4096 + 1,
{
    assert((va / 4096 + 1) * 4096 >= va + 1) by (nonlinear_arith)
        requires 0 <= va;
    assert((va + 1) % 4096 == 0 ==> va % 4096 == 4095) by (nonlinear_arith)
        requires 0 <= va;
    assert((va + 1) % 4096 != 0 ==> (va + 1) % 4096 == va % 4096 + 1) by (nonlinear_arith)
        requires 0 <= va;
}

/// The buffer of one user byte is the byte's place in the frame that its page
/// maps, when that page is mapped valid and readable; there is none otherwise.
pub proof fn lemma_one_byte_buffer(mem: Seq<Seq<PageTableEntry>>, root: usize, va: int)
    requires
        0 <= va,
    ensures
        user_buffer(mem, root, va, va + 1) == match translation(mem, root, (va / 4096) as usize) {
            Some(e) => if page_readable(e) {
                Some(seq![BufferSlice {
                    ppn: PhysPageNum(next_ppn(e)),
                    start: (va % 4096) as usize,
                    end: (va % 4096 + 1) as usize,
                }])
            } else {
                None::<Seq<BufferSlice>>
            },
            None => None::<Seq<BufferSlice>>,
        },
{
    lemma_one_byte_chunk(va);
    reveal_with_fuel(user_buffer, 2);
    match translation(mem, root, (va / 4096) as usize) {
        Some(e) => {
            if page_readable(e) {
                let slice = BufferSlice {
                    ppn: PhysPageNum(next_ppn(e)),
                    start: (va % 4096) as usize,
                    end: (va % 4096 + 1) as usize,
                };
                assert(seq![slice] + Seq::<BufferSlice>::empty() =~= seq![slice]);
            }
        },
        None => {},
    }
}

/// Copying one byte to user memory is one copy into the frame that its page
/// maps, when that page is mapped writable; nothing is copied otherwise.
pub proof fn lemma_one_byte_copy(mem: Seq<Seq<PageTableEntry>>, root: usize, va: int, k: int)
    requires
        0 <= va,
    ensures
        user_copies(mem, root, va, k, va + 1) == match translation(mem, root, (va / 4096) as usize) {
            Some(e) => if page_writable(e) {
                (seq![UserCopy {
                    dst: PhysAddr(((next_ppn(e) << 12usize) | ((va % 4096) as usize)) as usize),
                    src: k as usize,
                    len: 1,
                }], true)
            } else {
                (Seq::<UserCopy>::empty(), false)
            },
            None => (Seq::<UserCopy>::empty(), false),
        },
{
    lemma_one_byte_chunk(va);
    reveal_with_fuel(user_copies, 2);
    match translation(mem, root, (va / 4096) as usize) {
        Some(e) => {
            if page_writable(e) {
                let copy = UserCopy {
                    dst: PhysAddr(((next_ppn(e) << 12usize) | ((va % 4096) as usize)) as usize),
                    src: k as usize,
                    len: 1,
                };
                assert(seq![copy] + Seq::<UserCopy>::empty() =~= seq![copy]);
            }
        },
        None => {},
    }
}

proof fn lemma_va_low(x: usize)
    requires
        x <= VA_END,
    ensures
        x < VA_END ==> va_from(x) == x,
        x == VA_END ==> va_from(x) == 0,
{
    let y = x as u64;
    assert(y < 0x80_0000_0000u64 ==> y & 0x7f_ffff_ffffu64 == y) by (bit_vector);
    assert(y == 0x80_0000_0000u64 ==> y & 0x7f_ffff_ffffu64 == 0) by (bit_vector);
}

/// Translate&Copy a ptr[u8] array with LENGTH len to a mutable u8 Vec
/// through page table: the slices of physical memory that hold the whole
/// user buffer `ptr..ptr + len` of the address space named by `token`, one
/// per page in address order; `None` when one of its pages is not mapped
/// valid and readable.
pub fn translated_byte_buffer(token: usize, ptr: usize, len: usize, mem: &PhysMemory) -> (r: Option<Vec<BufferSlice>>)
    requires
        ptr + len <= VA_END,
        ptr + len + PAGE_SIZE <= usize::MAX,
        forall|a: usize| ptr <= a < ptr + len ==> #[trigger] walk_in_memory(mem@, token_root(token), page_of(a)),
    ensures
        match r {
            Some(v) => user_buffer(mem@, token_root(token), ptr as int, ptr + len) == Some(v@),
            None => user_buffer(mem@, token_root(token), ptr as int, ptr + len) is None,
        },
{
    let page_table = PageTable::from_token(token);
    let ghost root = token_root(token);
    let mut start = ptr;
    let end = start + len;
    let mut v: Vec<BufferSlice> = Vec::new();
    while start < end
        invariant
            end == ptr + len,
            end <= VA_END,
            end + PAGE_SIZE <= usize::MAX,
            ptr <= start,
            page_table.root() == root,
            root == token_root(token),
            forall|a: usize| ptr <= a < end ==> #[trigger] walk_in_memory(mem@, root, page_of(a)),
            user_buffer(mem@, root, ptr as int, end as int) == match user_buffer(mem@, root, start as int, end as int) {
                Some(rest) => Some(v@ + rest),
                None => None::<Seq<BufferSlice>>,
            },
        decreases remaining(start as int, end as int),
    {
        proof {
            lemma_va_low(start);
            lemma_va_low(end);
        }
        let start_va = VirtAddr::from_usize(start);
        let mut vpn = start_va.floor();
        assert(vpn.0 == (start as int / 4096) as usize);
        assert(start < end);
        assert(walk_in_memory(mem@, root, page_of(start)));
        let ppn = if let Some(pte) = page_table.translate(vpn, mem) {
            if pte.is_valid() && pte.readable() {
                pte.ppn()
            } else {
                return None;
            }
        } else {
            return None;
        };
        vpn.step();
        let mut end_va: VirtAddr = vpn.to_va();
        let a = VirtAddr::from_usize(end);
        if a.0 < end_va.0 {
            end_va = a;
        }
        let slice = if end_va.page_offset() == 0 {
            BufferSlice { ppn, start: start_va.page_offset(), end: PAGE_SIZE }
        } else {
            BufferSlice { ppn, start: start_va.page_offset(), end: end_va.page_offset() }
        };
        let chunk_len = slice.end - slice.start;
        proof {
            assert(chunk_len == chunk_end(start as int, end as int) - start);
        }
        let ghost old_start = start;
        let ghost old_v = v@;
        v.push(slice);
        start += chunk_len;
        proof {
            match user_buffer(mem@, root, start as int, end as int) {
                Some(rr) => {
                    assert(old_v + (seq![slice] + rr) =~= v@ + rr);
                },
                None => {},
            }
        }
    }
    Some(v)
}

/// Copy `len` bytes from kernel address `kernel_ptr` to user address
/// `user_ptr` of the address space named by `token`: the copies to make,
/// page by page, and whether every page was mapped writable. The copies stop at the first page that is not, and the result
/// is then false.
pub fn copy_to_user(token: usize, user_ptr: usize, kernel_ptr: usize, len: usize, mem: &PhysMemory)
    -> (r: (Vec<UserCopy>, bool))
    requires
        user_ptr + len <= VA_END,
        user_ptr + len + PAGE_SIZE <= usize::MAX,
        kernel_ptr + len <= usize::MAX,
        forall|a: usize| user_ptr <= a < user_ptr + len ==> #[trigger] walk_in_memory(mem@, token_root(token), page_of(a)),
    ensures
        (r.0@, r.1) == user_copies(mem@, token_root(token), user_ptr as int, kernel_ptr as int, user_ptr + len),
        forall|i: int| 0 <= i < r.0@.len() ==> #[trigger] r.0@[i].src == kernel_ptr + copies_len(r.0@.take(i)),
{
    proof {
        lemma_copies_take_matching_kernel_bytes(mem@, token_root(token), user_ptr as int, kernel_ptr as int,
            user_ptr + len);
    }
    let page_table = PageTable::from_token(token);
    let ghost root = token_root(token);
    let mut start = user_ptr;
    let mut k_start = kernel_ptr;
    let end = start + len;
    let mut copies: Vec<UserCopy> = Vec::new();
    while start < end
        invariant
            end == user_ptr + len,
            end <= VA_END,
            end + PAGE_SIZE <= usize::MAX,
            user_ptr <= start,
            k_start == kernel_ptr + (start - user_ptr),
            kernel_ptr + len <= usize::MAX,
            page_table.root() == root,
            root == token_root(token),
            forall|a: usize| user_ptr <= a < end ==> #[trigger] walk_in_memory(mem@, root, page_of(a)),
            ({
                let whole = user_copies(mem@, root, user_ptr as int, kernel_ptr as int, end as int);
                let rest = user_copies(mem@, root, start as int, k_start as int, end as int);
                whole == (copies@ + rest.0, rest.1)
            }),
            ({
                let whole = user_copies(mem@, root, user_ptr as int, kernel_ptr as int, end as int).0;
                forall|i: int| 0 <= i < whole.len() ==> #[trigger] whole[i].src == kernel_ptr + copies_len(whole.take(i))
            }),
        decreases remaining(start as int, end as int),
    {
        proof {
            lemma_va_low(start);
            lemma_va_low(end);
        }
        let start_va = VirtAddr::from_usize(start);
        let mut vpn = start_va.floor();
        assert(vpn.0 == (start as int / 4096) as usize);
        assert(start < end);
        assert(walk_in_memory(mem@, root, page_of(start)));
        let ppn = if let Some(pte) = page_table.translate(vpn, mem) {
            if !pte.writable() {
                assert(copies@ + Seq::<UserCopy>::empty() =~= copies@);
                assert(copies@ == user_copies(mem@, root, user_ptr as int, kernel_ptr as int, end as int).0);
                return (copies, false);
            }
            pte.ppn()
        } else {
            assert(copies@ + Seq::<UserCopy>::empty() =~= copies@);
            assert(copies@ == user_copies(mem@, root, user_ptr as int, kernel_ptr as int, end as int).0);
            return (copies, false);
        };
        vpn.step();
        let mut end_va: VirtAddr = vpn.to_va();
        let a = VirtAddr::from_usize(end);
        if a.0 < end_va.0 {
            end_va = a;
        }
        let pa_offset: PhysAddr = PhysAddr((ppn.0 << 12usize) | start_va.page_offset());
        let cp_len = if end_va.page_offset() == 0 {
            PAGE_SIZE - start_va.page_offset()
        } else {
            end_va.page_offset() - start_va.page_offset()
        };
        proof {
            assert(cp_len == chunk_end(start as int, end as int) - start);
        }
        let copy = UserCopy { dst: pa_offset, src: k_start, len: cp_len };
        let ghost old_c = copies@;
        let ghost old_start = start;
        let ghost old_k = k_start;
        copies.push(copy);
        start += cp_len;
        k_start += cp_len;
        proof {
            let rest = user_copies(mem@, root, start as int, k_start as int, end as int);
            assert(user_copies(mem@, root, old_start as int, old_k as int, end as int) == (seq![copy] + rest.0, rest.1));
            assert(old_c + (seq![copy] + rest.0) =~= copies@ + rest.0);
        }
    }
    (copies, true)
}

} // verus!
