//! Physical and virtual addresses and page numbers of the SV39 scheme.
use vstd::prelude::*;

verus! {

/// Bytes in a page.
pub const PAGE_SIZE: usize = 4096;

/// Bits of the offset inside a page.
pub const PAGE_SIZE_BITS: usize = 12;

/// Bits of a physical page number.
pub const PPN_WIDTH_SV39: usize = 44;

/// Bits of a virtual address.
pub const VA_WIDTH_SV39: usize = 39;

/// Physical address.
#[derive(Clone, Copy, Debug, PartialEq, Eq, Structural)]
pub struct PhysAddr(pub usize);

/// Virtual address.
#[derive(Clone, Copy, Debug, PartialEq, Eq, Structural)]
pub struct VirtAddr(pub usize);

/// Physical page number.
#[derive(Clone, Copy, Debug, PartialEq, Eq, Structural)]
pub struct PhysPageNum(pub usize);

/// Virtual page number.
#[derive(Clone, Copy, Debug, PartialEq, Eq, Structural)]
pub struct VirtPageNum(pub usize);

/// Mask of the 39 bits of an SV39 virtual address.
pub const VA_MASK: u64 = 0x7f_ffff_ffff;

/// A virtual address read from a number: its 39 low bits.
pub open spec fn va_from(v: usize) -> usize {
    ((v as u64) & VA_MASK) as usize
}

/// Index of `vpn` into the page table of `level` (0 is the root).
pub open spec fn vpn_index(vpn: usize, level: int) -> usize {
    if level == 0 {
        (vpn >> 18usize) & 511
    } else if level == 1 {
        (vpn >> 9usize) & 511
    } else {
        vpn & 511
    }
}

/// The three indexes of a page below 2^27 are its base-512 digits, most
/// significant first: they lie below 512 and put together give the page
/// back. So distinct pages have distinct indexes, and the walks of distinct
/// pages end in distinct leaf entries of a table.
pub proof fn lemma_vpn_indexes_are_digits(vpn: usize)
    requires
        vpn < 0x800_0000,
    ensures
        vpn_index(vpn, 0) == vpn / 262144,
        vpn_index(vpn, 1) == (vpn / 512) % 512,
        vpn_index(vpn, 2) == vpn % 512,
        vpn_index(vpn, 0) < 512,
        vpn_index(vpn, 1) < 512,
        vpn_index(vpn, 2) < 512,
        vpn == vpn_index(vpn, 0) * 262144 + vpn_index(vpn, 1) * 512 + vpn_index(vpn, 2),
{
    assert((vpn >> 18usize) & 511 == vpn / 262144) by (bit_vector)
        requires vpn < 0x800_0000usize;
    assert((vpn >> 9usize) & 511 == (vpn / 512) % 512) by (bit_vector);
    assert(vpn & 511 == vpn % 512) by (bit_vector);
    assert(vpn / 262144 < 512 && (vpn / 512) % 512 < 512 && vpn % 512 < 512) by (bit_vector)
        requires vpn < 0x800_0000usize;
    assert(vpn == (vpn / 262144) * 262144 + ((vpn / 512) % 512) * 512 + vpn % 512) by (nonlinear_arith);
}

/// Distinct pages below 2^27 differ in at least one index.
pub proof fn lemma_vpn_indexes_distinct(v: usize, w: usize)
    requires
        v < 0x800_0000,
        w < 0x800_0000,
        v != w,
    ensures
        vpn_index(v, 0) != vpn_index(w, 0) || vpn_index(v, 1) != vpn_index(w, 1) || vpn_index(v, 2) != vpn_index(w, 2),
{
    lemma_vpn_indexes_are_digits(v);
    lemma_vpn_indexes_are_digits(w);
}

impl VirtAddr {
    /// The virtual address of number `v`: its 39 low bits.
    pub fn from_usize(v: usize) -> (r: Self)
        ensures
            r.0 == va_from(v),
    {
        VirtAddr(((v as u64) & VA_MASK) as usize)
    }

    /// The page the address lies in.
    pub fn floor(&self) -> (r: VirtPageNum)
        ensures
            r.0 == self.0 / PAGE_SIZE,
    {
        VirtPageNum(self.0 / PAGE_SIZE)
    }

    /// The offset of the address in its page.
    pub fn page_offset(&self) -> (r: usize)
        ensures
            r == self.0 % PAGE_SIZE,
    {
        let v = self.0;
        let r = v & (PAGE_SIZE - 1);
        assert(r == v % 4096) by (bit_vector)
            requires r == v & 4095usize;
        r
    }
}

impl VirtPageNum {
    /// The indexes of the page into the page tables of the three levels.
    pub fn indexes(&self) -> (r: [usize; 3])
        ensures
            r@.len() == 3,
            forall|i: int| 0 <= i < 3 ==> #[trigger] r@[i] == vpn_index(self.0, i),
            forall|i: int| 0 <= i < 3 ==> #[trigger] r@[i] < 512,
            r@[0] == (self.0 / 262144) % 512,
            r@[1] == (self.0 / 512) % 512,
            r@[2] == self.0 % 512,
    {
        let mut vpn = self.0;
        let mut idx: [usize; 3] = [0usize; 3];
        idx[2] = vpn & 511;
        vpn = vpn >> 9usize;
        idx[1] = vpn & 511;
        vpn = vpn >> 9usize;
        idx[0] = vpn & 511;
        let v = self.0;
        assert((v >> 9usize) >> 9usize == v >> 18usize) by (bit_vector);
        assert(v & 511 < 512 && (v >> 9usize) & 511 < 512 && (v >> 18usize) & 511 < 512) by (bit_vector);
        assert((v >> 18usize) & 511 == (v / 262144) % 512 && (v >> 9usize) & 511 == (v / 512) % 512
            && v & 511 == v % 512) by (bit_vector);
        idx
    }

    /// The next page.
    pub fn step(&mut self)
        requires
            old(self).0 < usize::MAX,
        ensures
            final(self).0 == old(self).0 + 1,
    {
        self.0 = self.0 + 1;
    }

    /// The first address of the page.
    pub fn to_va(self) -> (r: VirtAddr)
        requires
            self.0 * PAGE_SIZE <= usize::MAX,
        ensures
            r.0 == self.0 * PAGE_SIZE,
    {
        VirtAddr(self.0 * PAGE_SIZE)
    }
}

} // verus!
