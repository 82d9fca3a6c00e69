//! The physical frame allocator: frames are handed out from a growing
//! range, and frames given back are handed out again first, last in first out.
use vstd::prelude::*;
use crate::mm::address::PhysPageNum;
use crate::mm::page_table::PageTableEntry;

verus! {

/// What the allocator keeps: the next never handed out frame, the end of the
/// range, and the frames given back.
pub struct FrameAllocatorState {
    pub current: usize,
    pub end: usize,
    pub recycled: Seq<usize>,
}

impl FrameAllocatorState {
    /// Frame `ppn` is handed out: below `current` and not given back.
    pub open spec fn in_use(self, ppn: usize) -> bool {
        ppn < self.current && !self.recycled.contains(ppn)
    }

    /// No frame is given back twice, and every given back frame lies below `current`.
    pub open spec fn wf(self) -> bool {
        &&& self.recycled.no_duplicates()
        &&& forall|i: int| 0 <= i < self.recycled.len() ==> #[trigger] self.recycled[i] < self.current
    }

    /// The frame an allocation hands out, if any: the last one given back,
    /// else the next of the range, else none.
    pub open spec fn next_frame(self) -> Option<usize> {
        if self.recycled.len() > 0 {
            Some(self.recycled.last())
        } else if self.current == self.end {
            None
        } else {
            Some(self.current)
        }
    }

    /// The state after an allocation.
    pub open spec fn after_alloc(self) -> FrameAllocatorState {
        if self.recycled.len() > 0 {
            FrameAllocatorState { recycled: self.recycled.drop_last(), ..self }
        } else if self.current == self.end {
            self
        } else {
            FrameAllocatorState { current: (self.current + 1) as usize, ..self }
        }
    }

    /// The state after `n` allocations.
    pub open spec fn after_allocs(self, n: nat) -> FrameAllocatorState
        decreases n,
    {
        if n == 0 {
            self
        } else {
            self.after_alloc().after_allocs((n - 1) as nat)
        }
    }

    /// The state after frame `ppn` is given back.
    pub open spec fn after_dealloc(self, ppn: usize) -> FrameAllocatorState {
        FrameAllocatorState { recycled: self.recycled.push(ppn), ..self }
    }
}

/// An implementation for frame allocator, based on a stack of recycled frames.
pub struct StackFrameAllocator {
    current: usize,
    end: usize,
    recycled: Vec<usize>,
}

impl View for StackFrameAllocator {
    type V = FrameAllocatorState;

    closed spec fn view(&self) -> FrameAllocatorState {
        FrameAllocatorState { current: self.current, end: self.end, recycled: self.recycled@ }
    }
}

impl StackFrameAllocator {
    /// An allocator with an empty range and no frames given back.
    pub fn new() -> (r: Self)
        ensures
            r@ == (FrameAllocatorState { current: 0, end: 0, recycled: Seq::empty() }),
            r@.wf(),
    {
        Self { current: 0, end: 0, recycled: Vec::new() }
    }

    /// Hand out the frames from `l` up to `r`, not including `r`.
    pub fn init(&mut self, l: PhysPageNum, r: PhysPageNum)
        ensures
            final(self)@ == (FrameAllocatorState { current: l.0, end: r.0, recycled: old(self)@.recycled }),
            old(self)@.recycled.len() == 0 ==> final(self)@.wf(),
    {
        self.current = l.0;
        self.end = r.0;
    }

    /// Allocate a frame: the last frame given back, else the next frame of
    /// the range; `None` when both are used up.
    pub fn allocate(&mut self) -> (r: Option<PhysPageNum>)
        requires
            old(self)@.recycled.len() == 0 && old(self)@.current != old(self)@.end ==> old(self)@.current < usize::MAX,
        ensures
            r == match old(self)@.next_frame() {
                Some(p) => Some(PhysPageNum(p)),
                None => None::<PhysPageNum>,
            },
            final(self)@ == old(self)@.after_alloc(),
            old(self)@.wf() ==> final(self)@.wf(),
    {
        if let Some(ppn) = self.recycled.pop() {
            Some(PhysPageNum(ppn))
        } else if self.current == self.end {
            None
        } else {
            self.current += 1;
            Some(PhysPageNum(self.current - 1))
        }
    }

    /// Give frame `ppn` back. It must be one that is handed out.
    pub fn dealloc(&mut self, ppn: PhysPageNum)
        requires
            old(self)@.in_use(ppn.0),
        ensures
            final(self)@ == old(self)@.after_dealloc(ppn.0),
            old(self)@.wf() ==> final(self)@.wf(),
    {
        let ppn = ppn.0;
        self.recycled.push(ppn);
    }

    /// Does every frame that the allocator can hand out lie in `mem`?
    pub fn fits_memory(&self, mem: &PhysMemory) -> (r: bool)
        ensures
            r == covers(mem@, self@),
    {
        let n = mem.len();
        if !(self.current <= self.end && self.end <= n) {
            return false;
        }
        let mut i: usize = 0;
        while i < self.recycled.len()
            invariant
                n == mem@.len(),
                i <= self.recycled@.len(),
                forall|j: int| 0 <= j < i ==> #[trigger] self.recycled@[j] < n,
            decreases self.recycled@.len() - i,
        {
            if self.recycled[i] >= n {
                assert(self@.recycled[i as int] >= mem@.len());
                return false;
            }
            i += 1;
        }
        true
    }

    /// Is frame `ppn` handed out? This is the test that giving a frame back
    /// must pass.
    pub fn is_in_use(&self, ppn: PhysPageNum) -> (r: bool)
        ensures
            r == self@.in_use(ppn.0),
    {
        if ppn.0 >= self.current {
            return false;
        }
        let mut i: usize = 0;
        while i < self.recycled.len()
            invariant
                i <= self.recycled@.len(),
                forall|j: int| 0 <= j < i ==> self.recycled@[j] != ppn.0,
            decreases self.recycled@.len() - i,
        {
            if self.recycled[i] == ppn.0 {
                return false;
            }
            i += 1;
        }
        true
    }
}

/// Entries in a page table frame.
pub const PTE_PER_FRAME: usize = 512;

/// The physical frames that page tables live in, indexed by physical page
/// number, each read as its 512 page table entries.
pub struct PhysMemory {
    frames: Vec<Vec<PageTableEntry>>,
}

impl View for PhysMemory {
    type V = Seq<Seq<PageTableEntry>>;

    closed spec fn view(&self) -> Seq<Seq<PageTableEntry>> {
        self.frames@.map_values(|f: Vec<PageTableEntry>| f@)
    }
}

/// The number of frames that a 44-bit physical page number can name.
pub const PPN_LIMIT: u64 = 0x1000_0000_0000;

/// There are no more frames than page numbers, and every frame holds 512 entries.
pub open spec fn frames_wf(mem: Seq<Seq<PageTableEntry>>) -> bool {
    &&& mem.len() <= PPN_LIMIT
    &&& forall|p: int| 0 <= p < mem.len() ==> (#[trigger] mem[p]).len() == PTE_PER_FRAME
}

/// A frame whose entries are all zero.
pub open spec fn zero_frame() -> Seq<PageTableEntry> {
    Seq::new(PTE_PER_FRAME as nat, |i: int| PageTableEntry { bits: 0 })
}

impl PhysMemory {
    /// `n` frames, all zero.
    pub fn new(n: usize) -> (r: Self)
        requires
            n <= PPN_LIMIT,
        ensures
            r@ == Seq::new(n as nat, |p: int| zero_frame()),
            frames_wf(r@),
    {
        let mut frames: Vec<Vec<PageTableEntry>> = Vec::new();
        let mut k: usize = 0;
        while k < n
            invariant
                k <= n,
                frames@.len() == k,
                forall|p: int| 0 <= p < k ==> (#[trigger] frames@[p])@ == zero_frame(),
            decreases n - k,
        {
            let mut f: Vec<PageTableEntry> = Vec::new();
            let mut i: usize = 0;
            while i < PTE_PER_FRAME
                invariant
                    i <= PTE_PER_FRAME,
                    f@ == Seq::new(i as nat, |j: int| PageTableEntry { bits: 0 }),
                decreases PTE_PER_FRAME - i,
            {
                f.push(PageTableEntry::empty());
                i += 1;
                assert(f@ =~= Seq::new(i as nat, |j: int| PageTableEntry { bits: 0 }));
            }
            frames.push(f);
            k += 1;
        }
        let r = PhysMemory { frames };
        assert(r@ =~= Seq::new(n as nat, |p: int| zero_frame()));
        r
    }

    /// Are there no more frames than page numbers, each holding 512 entries?
    pub fn is_wf(&self) -> (r: bool)
        ensures
            r == frames_wf(self@),
    {
        let n = self.frames.len();
        if n as u64 > PPN_LIMIT {
            return false;
        }
        let mut p: usize = 0;
        while p < n
            invariant
                n == self@.len(),
                p <= n,
                forall|q: int| 0 <= q < p ==> (#[trigger] self@[q]).len() == PTE_PER_FRAME,
            decreases n - p,
        {
            assert(self@[p as int] == self.frames@[p as int]@);
            if self.frames[p].len() != PTE_PER_FRAME {
                return false;
            }
            p += 1;
        }
        true
    }

    /// Number of frames.
    pub fn len(&self) -> (r: usize)
        ensures
            r == self@.len(),
    {
        self.frames.len()
    }

    /// Entry `idx` of frame `ppn`.
    pub fn read(&self, ppn: PhysPageNum, idx: usize) -> (r: PageTableEntry)
        requires
            ppn.0 < self@.len(),
            idx < self@[ppn.0 as int].len(),
        ensures
            r == self@[ppn.0 as int][idx as int],
    {
        self.frames[ppn.0][idx]
    }

    /// Set entry `idx` of frame `ppn`.
    pub fn write(&mut self, ppn: PhysPageNum, idx: usize, pte: PageTableEntry)
        requires
            ppn.0 < old(self)@.len(),
            idx < old(self)@[ppn.0 as int].len(),
        ensures
            final(self)@ == old(self)@.update(ppn.0 as int, old(self)@[ppn.0 as int].update(idx as int, pte)),
    {
        self.frames[ppn.0][idx] = pte;
        assert(self@ =~= old(self)@.update(ppn.0 as int, old(self)@[ppn.0 as int].update(idx as int, pte)));
    }

    /// Clear every entry of frame `ppn`.
    pub fn zero(&mut self, ppn: PhysPageNum)
        requires
            ppn.0 < old(self)@.len(),
            frames_wf(old(self)@),
        ensures
            final(self)@ == old(self)@.update(ppn.0 as int, zero_frame()),
            frames_wf(final(self)@),
    {
        let p = ppn.0;
        let mut i: usize = 0;
        while i < PTE_PER_FRAME
            invariant
                p == ppn.0,
                p < self@.len(),
                i <= PTE_PER_FRAME,
                self@.len() == old(self)@.len(),
                self@[p as int].len() == PTE_PER_FRAME,
                forall|j: int| 0 <= j < i ==> #[trigger] self@[p as int][j] == (PageTableEntry { bits: 0 }),
                forall|q: int| 0 <= q < self@.len() && q != p ==> #[trigger] self@[q] == old(self)@[q],
                frames_wf(old(self)@),
            decreases PTE_PER_FRAME - i,
        {
            let ghost prev = self.frames@;
            let ghost prev_view = self@;
            self.frames[p][i] = PageTableEntry::empty();
            assert forall|q: int| 0 <= q < self@.len() && q != p implies #[trigger] self@[q] == old(self)@[q] by {
                assert(self.frames@[q] == prev[q]);
                assert(self@[q] == self.frames@[q]@);
                assert(prev_view[q] == prev[q]@);
                assert(prev_view[q] == old(self)@[q]);
            }
            i += 1;
        }
        assert(self@[p as int] =~= zero_frame());
        assert(self@ =~= old(self)@.update(p as int, zero_frame()));
    }
}

/// A physical page frame handed out by the allocator. It goes back to the
/// allocator only through `frame_dealloc` with its page number.
pub struct FrameTracker {
    /// physical page number
    pub ppn: PhysPageNum,
}

impl FrameTracker {
    /// Create a new FrameTracker for frame `ppn`, whose entries are cleared.
    pub fn new(ppn: PhysPageNum, mem: &mut PhysMemory) -> (r: Self)
        requires
            ppn.0 < old(mem)@.len(),
            frames_wf(old(mem)@),
        ensures
            r.ppn == ppn,
            final(mem)@ == old(mem)@.update(ppn.0 as int, zero_frame()),
            frames_wf(final(mem)@),
    {
        mem.zero(ppn);
        Self { ppn }
    }
}

/// The allocator hands out only frames that `mem` has.
pub open spec fn covers(mem: Seq<Seq<PageTableEntry>>, s: FrameAllocatorState) -> bool {
    &&& s.current <= s.end <= mem.len()
    &&& forall|i: int| 0 <= i < s.recycled.len() ==> #[trigger] s.recycled[i] < mem.len()
}

/// How many frames the allocator can still hand out.
pub open spec fn frames_left(s: FrameAllocatorState) -> int {
    s.recycled.len() + (s.end - s.current)
}

/// Allocate a physical page frame in FrameTracker style: the frame is
/// cleared.
pub fn frame_alloc(allocator: &mut StackFrameAllocator, mem: &mut PhysMemory) -> (r: Option<FrameTracker>)
    requires
        covers(old(mem)@, old(allocator)@),
        frames_wf(old(mem)@),
    ensures
        final(allocator)@ == old(allocator)@.after_alloc(),
        old(allocator)@.wf() ==> final(allocator)@.wf(),
        covers(final(mem)@, final(allocator)@),
        frames_wf(final(mem)@),
        frames_left(final(allocator)@) == frames_left(old(allocator)@) - if r is Some { 1int } else { 0int },
        match old(allocator)@.next_frame() {
            Some(p) => {
                &&& r == Some(FrameTracker { ppn: PhysPageNum(p) })
                &&& final(mem)@ == old(mem)@.update(p as int, zero_frame())
            },
            None => r is None && final(mem)@ == old(mem)@,
        },
{
    match allocator.allocate() {
        Some(ppn) => {
            proof {
                let s = old(allocator)@;
                if s.recycled.len() > 0 {
                    assert(s.recycled[s.recycled.len() - 1] < old(mem)@.len());
                }
            }
            Some(FrameTracker::new(ppn, mem))
        },
        None => None,
    }
}

/// Deallocate a physical page frame with a given ppn
pub fn frame_dealloc(allocator: &mut StackFrameAllocator, ppn: PhysPageNum)
    requires
        old(allocator)@.in_use(ppn.0),
    ensures
        final(allocator)@ == old(allocator)@.after_dealloc(ppn.0),
        old(allocator)@.wf() ==> final(allocator)@.wf(),
{
    allocator.dealloc(ppn);
}

/// An allocation hands out a frame that was not in use, and afterwards it is
/// in use; the state stays well formed.
pub proof fn lemma_alloc_hands_out_free_frame(s: FrameAllocatorState)
    requires
        s.wf(),
        s.next_frame() is Some,
        s.recycled.len() == 0 ==> s.current < usize::MAX,
    ensures
        !s.in_use(s.next_frame()->0),
        s.after_alloc().in_use(s.next_frame()->0),
        s.after_alloc().wf(),
{
    let p = s.next_frame()->0;
    let t = s.after_alloc();
    if s.recycled.len() > 0 {
        assert(s.recycled.contains(p));
        if t.recycled.contains(p) {
            let j = choose|j: int| 0 <= j < t.recycled.len() && t.recycled[j] == p;
            assert(s.recycled[j] == s.recycled[s.recycled.len() - 1]);
        }
    } else {
        assert(!t.recycled.contains(p));
    }
}

/// Giving a frame back and allocating again hands out that same frame and
/// restores the state.
pub proof fn lemma_dealloc_then_alloc(s: FrameAllocatorState, ppn: usize)
    ensures
        s.after_dealloc(ppn).next_frame() == Some(ppn),
        s.after_dealloc(ppn).after_alloc() == s,
{
    assert(s.after_dealloc(ppn).recycled.drop_last() =~= s.recycled);
}

/// Allocating a given back frame and giving it back again restores the state.
pub proof fn lemma_alloc_recycled_then_dealloc(s: FrameAllocatorState)
    requires
        s.recycled.len() > 0,
    ensures
        s.after_alloc().after_dealloc(s.next_frame()->0) == s,
{
    assert(s.recycled.drop_last().push(s.recycled.last()) =~= s.recycled);
}

} // verus!
