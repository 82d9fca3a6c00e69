//! Allocation bitmaps of the file system: a run of disk blocks in which every
//! bit tells whether one object (inode or data block) is in use.
use vstd::prelude::*;

verus! {

/// Number of bytes in a disk block.
pub const BLOCK_SZ: usize = 512;

/// Number of bits in a block: `BLOCK_SZ * 8`.
pub const BLOCK_BITS: usize = 4096;

/// A bitmap block, read as 64 words of 64 bits.
pub type BitmapBlock = [u64; 64];

/// Whether bit `bit` (counted from the least significant one) of `word` is set.
pub open spec fn word_bit(word: u64, bit: int) -> bool {
    (word >> (bit as u64)) & 1u64 == 1u64
}

/// Where bit `bit` of a bitmap lies: (block, word in the block, bit in the word).
pub open spec fn decomposed(bit: int) -> (int, int, int) {
    (bit / BLOCK_BITS as int, (bit % BLOCK_BITS as int) / 64, bit % 64)
}

/// Decompose bits into (block_pos, bits64_pos, inner_pos).
pub fn decomposition(bit: usize) -> (r: (usize, usize, usize))
    ensures
        (r.0 as int, r.1 as int, r.2 as int) == decomposed(bit as int),
        r.1 < 64,
        r.2 < 64,
{
    let block_pos = bit / BLOCK_BITS;
    let rest = bit % BLOCK_BITS;
    (block_pos, rest / 64, rest % 64)
}

/// `word` with bit `i` set (`value`) or cleared.
pub open spec fn word_with_bit(word: u64, i: int, value: bool) -> u64 {
    if value {
        word | (1u64 << (i as u64))
    } else {
        word & !(1u64 << (i as u64))
    }
}

proof fn lemma_decomposed(bit: int, b: int, w: int, i: int)
    requires
        0 <= b,
        0 <= w < 64,
        0 <= i < 64,
        bit == b * 4096 + w * 64 + i,
    ensures
        decomposed(bit) == (b, w, i),
{
    assert(bit / 4096 == b && bit % 4096 == w * 64 + i) by (nonlinear_arith)
        requires 0 <= b, 0 <= w < 64, 0 <= i < 64, bit == b * 4096 + w * 64 + i;
    assert((w * 64 + i) / 64 == w && (w * 64 + i) % 64 == i && bit % 64 == i) by (nonlinear_arith)
        requires 0 <= b, 0 <= w < 64, 0 <= i < 64, bit == b * 4096 + w * 64 + i;
}

proof fn lemma_decomposed_parts(bit: int)
    requires
        0 <= bit,
    ensures
        ({
            let (b, w, i) = decomposed(bit);
            &&& 0 <= b && 0 <= w < 64 && 0 <= i < 64
            &&& bit == b * 4096 + w * 64 + i
        }),
{
    assert(bit == (bit / 4096) * 4096 + bit % 4096 && 0 <= bit % 4096 < 4096 && 0 <= bit / 4096) by (nonlinear_arith)
        requires 0 <= bit;
    let r = bit % 4096;
    assert(r == (r / 64) * 64 + r % 64 && 0 <= r / 64 < 64 && 0 <= r % 64 < 64) by (nonlinear_arith)
        requires 0 <= r < 4096;
    assert(bit % 64 == r % 64) by (nonlinear_arith)
        requires 0 <= bit, r == bit % 4096;
}

proof fn lemma_full_word_bits()
    ensures
        forall|i: u64| i < 64 ==> #[trigger] ((0xffff_ffff_ffff_ffffu64 >> i) & 1u64) == 1u64,
{
    assert(forall|i: u64| i < 64 ==> #[trigger] ((0xffff_ffff_ffff_ffffu64 >> i) & 1u64) == 1u64) by (bit_vector);
}

/// `device` with bits `bits` of bitmap `bm` cleared one after the other.
pub open spec fn cleared_bits(bm: Bitmap, device: Seq<BitmapBlock>, bits: Seq<u32>) -> Seq<BitmapBlock>
    decreases bits.len(),
{
    if bits.len() == 0 {
        device
    } else {
        bm.with_bit(cleared_bits(bm, device, bits.drop_last()), bits.last() as int, false)
    }
}

/// Each of `bits` is a set bit of `bm` in `device`, and none comes twice.
pub open spec fn held_bits(bm: Bitmap, device: Seq<BitmapBlock>, bits: Seq<u32>) -> bool {
    &&& forall|k: int| 0 <= k < bits.len() ==> #[trigger] bits[k] < bm.capacity() && bm.is_set(device, bits[k] as int)
    &&& forall|j: int, k: int| 0 <= j < k < bits.len() ==> #[trigger] bits[j] != #[trigger] bits[k]
}

/// A bitmap.
pub struct Bitmap {
    start_block_id: usize,
    blocks: usize,
}

impl Bitmap {
    /// The first block of the bitmap on the device.
    pub closed spec fn start(&self) -> nat {
        self.start_block_id as nat
    }

    /// The number of blocks of the bitmap.
    pub closed spec fn num_blocks(&self) -> nat {
        self.blocks as nat
    }

    /// The number of bits of the bitmap.
    pub open spec fn capacity(&self) -> int {
        self.num_blocks() * BLOCK_BITS
    }

    /// The device holds every block of the bitmap.
    pub open spec fn fits(&self, device: Seq<BitmapBlock>) -> bool {
        self.start() + self.num_blocks() <= device.len()
    }

    /// Whether bit `bit` of the bitmap is set in `device`.
    pub open spec fn is_set(&self, device: Seq<BitmapBlock>, bit: int) -> bool {
        let (b, w, i) = decomposed(bit);
        word_bit(device[self.start() + b][w], i)
    }

    /// Allocate a new block from a block device, whose blocks are read as
    /// bitmap blocks: the lowest clear bit of the bitmap is set and its index
    /// returned; `None` when every bit is set.
    pub fn allocate(&self, block_device: &mut Vec<BitmapBlock>) -> (r: Option<usize>)
        requires
            self.fits(old(block_device)@),
            self.capacity() <= usize::MAX,
        ensures
            match r {
                None => {
                    &&& final(block_device)@ == old(block_device)@
                    &&& forall|c: int| 0 <= c < self.capacity() ==> #[trigger] self.is_set(old(block_device)@, c)
                },
                Some(bit) => {
                    &&& bit < self.capacity()
                    &&& !self.is_set(old(block_device)@, bit as int)
                    &&& forall|c: int| 0 <= c < bit ==> #[trigger] self.is_set(old(block_device)@, c)
                    &&& final(block_device)@ == self.with_bit(old(block_device)@, bit as int, true)
                },
            },
    {
        let mut block_id: usize = 0;
        while block_id < self.blocks
            invariant
                self.fits(block_device@),
                self.start() + self.num_blocks() <= block_device.len(),
                self.capacity() <= usize::MAX,
                block_device@ == old(block_device)@,
                block_id <= self.blocks,
                forall|c: int| 0 <= c < block_id * 4096 ==> #[trigger] self.is_set(old(block_device)@, c),
            decreases self.blocks - block_id,
        {
            let abs = block_id + self.start_block_id;
            let block: BitmapBlock = block_device[abs];
            let mut w: usize = 0;
            while w < 64
                invariant
                    w <= 64,
                    self.fits(block_device@),
                    self.start() + self.num_blocks() <= block_device.len(),
                    self.capacity() <= usize::MAX,
                    block_device@ == old(block_device)@,
                    forall|c: int| 0 <= c < block_id * 4096 ==> #[trigger] self.is_set(old(block_device)@, c),
                    block_id < self.blocks,
                    abs == block_id + self.start(),
                    block == old(block_device)@[abs as int],
                    forall|j: int| 0 <= j < w ==> block[j] == 0xffff_ffff_ffff_ffffu64,
                decreases 64 - w,
            {
                if block[w] != u64::MAX {
                    let word = block[w];
                    let inner = word.trailing_ones() as usize;
                    let mut new_block = block;
                    new_block[w] = word | (1u64 << (inner as u64));
                    block_device.set(abs, new_block);
                    proof {
                        assert(new_block =~= vstd::array::spec_array_update(block, w as int,
                            word_with_bit(word, inner as int, true)));
                        broadcast use vstd::std_specs::bits::axiom_u64_trailing_ones;
                        assert(block_id * 4096 + 4096 <= self.capacity()) by (nonlinear_arith)
                            requires block_id < self.blocks, self.capacity() == self.num_blocks() * 4096;
                        let bit = block_id * 4096 + w * 64 + inner;
                        lemma_decomposed(bit as int, block_id as int, w as int, inner as int);
                        assert(block_device@ =~= self.with_bit(old(block_device)@, bit as int, true));
                        assert forall|c: int| 0 <= c < bit implies #[trigger] self.is_set(old(block_device)@, c) by {
                            if c >= block_id * 4096 {
                                lemma_decomposed_parts(c);
                                let (cb, cw, ci) = decomposed(c);
                                assert(cb == block_id) by (nonlinear_arith)
                                    requires c == cb * 4096 + cw * 64 + ci, 0 <= cw < 64, 0 <= ci < 64,
                                        block_id * 4096 <= c < block_id * 4096 + w * 64 + inner, w < 64, inner < 64;
                                if cw < w {
                                    lemma_full_word_bits();
                                    assert(block[cw] == 0xffff_ffff_ffff_ffffu64);
                                    assert(((0xffff_ffff_ffff_ffffu64 >> (ci as u64)) & 1u64) == 1u64);
                                } else {
                                    assert(cw == w && ci < inner) by (nonlinear_arith)
                                        requires c == cb * 4096 + cw * 64 + ci, 0 <= ci < 64, cb == block_id,
                                            c < block_id * 4096 + w * 64 + inner, cw >= w, inner < 64;
                                    assert((word >> (ci as u64)) & 1u64 == 1u64);
                                }
                            }
                        }
                    }
                    return Some(block_id * BLOCK_BITS + w * 64 + inner);
                }
                w += 1;
            }
            proof {
                lemma_full_word_bits();
                assert forall|c: int| 0 <= c < (block_id + 1) * 4096 implies #[trigger] self.is_set(old(block_device)@, c) by {
                    if c >= block_id * 4096 {
                        lemma_decomposed_parts(c);
                        let (cb, cw, ci) = decomposed(c);
                        assert(cb == block_id) by (nonlinear_arith)
                            requires c == cb * 4096 + cw * 64 + ci, 0 <= cw < 64, 0 <= ci < 64,
                                block_id * 4096 <= c < (block_id + 1) * 4096;
                        assert(block[cw] == 0xffff_ffff_ffff_ffffu64);
                        assert(((0xffff_ffff_ffff_ffffu64 >> (ci as u64)) & 1u64) == 1u64);
                    }
                }
            }
            block_id += 1;
        }
        None
    }

    /// Deallocate a block: bit `bit`, which must be set, is cleared.
    pub fn dealloc(&self, block_device: &mut Vec<BitmapBlock>, bit: usize)
        requires
            self.start() + decomposed(bit as int).0 < old(block_device).len(),
            self.is_set(old(block_device)@, bit as int),
        ensures
            final(block_device)@ == self.with_bit(old(block_device)@, bit as int, false),
    {
        let (block_pos, bits64_pos, inner_pos) = decomposition(bit);
        let abs = block_pos + self.start_block_id;
        let mut block: BitmapBlock = block_device[abs];
        let word = block[bits64_pos];
        let mask = 1u64 << (inner_pos as u64);
        assert(word >= mask && word - mask == word & !mask) by (bit_vector)
            requires (word >> (inner_pos as u64)) & 1u64 == 1u64, inner_pos < 64, mask == 1u64 << (inner_pos as u64);
        block[bits64_pos] = word - mask;
        block_device.set(abs, block);
        proof {
            let k = self.start() + block_pos;
            assert(block =~= vstd::array::spec_array_update(old(block_device)@[k], bits64_pos as int,
                word_with_bit(word, inner_pos as int, false)));
            assert(block_device@ =~= self.with_bit(old(block_device)@, bit as int, false));
        }
    }

    /// Deallocate each of `bits` in turn.
    pub fn dealloc_each(&self, block_device: &mut Vec<BitmapBlock>, bits: &Vec<u32>)
        requires
            self.fits(old(block_device)@),
            held_bits(*self, old(block_device)@, bits@),
        ensures
            final(block_device)@ == cleared_bits(*self, old(block_device)@, bits@),
    {
        let mut i: usize = 0;
        while i < bits.len()
            invariant
                i <= bits@.len(),
                self.fits(block_device@),
                block_device@.len() == old(block_device)@.len(),
                held_bits(*self, old(block_device)@, bits@),
                block_device@ == cleared_bits(*self, old(block_device)@, bits@.take(i as int)),
                forall|k: int| i <= k < bits@.len() ==> #[trigger] self.is_set(block_device@, bits@[k] as int),
            decreases bits@.len() - i,
        {
            let b = bits[i];
            proof {
                lemma_bit_in_blocks(*self, b as int);
            }
            let ghost before = block_device@;
            self.dealloc(block_device, b as usize);
            proof {
                assert(bits@.take(i + 1).drop_last() =~= bits@.take(i as int));
                assert forall|k: int| i + 1 <= k < bits@.len() implies #[trigger] self.is_set(block_device@, bits@[k] as int) by {
                    lemma_bit_in_blocks(*self, bits@[k] as int);
                    assert(bits@[i as int] != bits@[k]);
                    lemma_with_bit_changes_one_bit(*self, before, b as int, false, bits@[k] as int);
                }
            }
            i += 1;
        }
        assert(bits@.take(i as int) =~= bits@);
    }

    /// `device` with bit `bit` of the bitmap set (`value`) or cleared, all
    /// other bits unchanged.
    pub open spec fn with_bit(&self, device: Seq<BitmapBlock>, bit: int, value: bool) -> Seq<BitmapBlock> {
        let (b, w, i) = decomposed(bit);
        let k = self.start() + b;
        device.update(k, vstd::array::spec_array_update(device[k], w, word_with_bit(device[k][w], i, value)))
    }

    /// A new bitmap from start block id and number of blocks
    pub fn new(start_block_id: usize, blocks: usize) -> (r: Self)
        ensures
            r.start() == start_block_id,
            r.num_blocks() == blocks,
    {
        Self { start_block_id, blocks }
    }

    /// Get the max number of allocatable blocks
    pub fn maximum(&self) -> (r: usize)
        requires
            self.capacity() <= usize::MAX,
        ensures
            r == self.capacity(),
    {
        self.blocks * BLOCK_BITS
    }
}

proof fn lemma_word_bits(word: u64, i: u64, j: u64, value: bool)
    requires
        i < 64,
        j < 64,
    ensures
        word_bit(word_with_bit(word, j as int, value), i as int) == if i == j { value } else { word_bit(word, i as int) },
{
    if value {
        assert(((word | (1u64 << j)) >> i) & 1u64 == if i == j { 1u64 } else { (word >> i) & 1u64 }) by (bit_vector)
            requires i < 64, j < 64;
    } else {
        assert(((word & !(1u64 << j)) >> i) & 1u64 == if i == j { 0u64 } else { (word >> i) & 1u64 }) by (bit_vector)
            requires i < 64, j < 64;
    }
}

proof fn lemma_bit_in_blocks(bm: Bitmap, bit: int)
    requires
        0 <= bit < bm.capacity(),
    ensures
        decomposed(bit).0 < bm.num_blocks(),
{
    let n = bm.num_blocks() as int;
    assert(bit / 4096 < n) by (nonlinear_arith)
        requires 0 <= bit < n * 4096;
}

/// Clearing bits of one bitmap leaves every bit of a bitmap that lies in
/// blocks before it as it was.
pub proof fn lemma_cleared_keeps_other(a: Bitmap, b: Bitmap, device: Seq<BitmapBlock>, bits: Seq<u32>, c: int)
    requires
        b.start() + b.num_blocks() <= a.start(),
        a.fits(device),
        0 <= c < b.capacity(),
        forall|k: int| 0 <= k < bits.len() ==> #[trigger] bits[k] < a.capacity(),
    ensures
        cleared_bits(a, device, bits).len() == device.len(),
        b.is_set(cleared_bits(a, device, bits), c) == b.is_set(device, c),
    decreases bits.len(),
{
    lemma_bit_in_blocks(b, c);
    if bits.len() > 0 {
        let rest = bits.drop_last();
        assert forall|k: int| 0 <= k < rest.len() implies #[trigger] rest[k] < a.capacity() by {
            assert(rest[k] == bits[k]);
        }
        lemma_cleared_keeps_other(a, b, device, rest, c);
        lemma_bit_in_blocks(a, bits.last() as int);
        let d = cleared_bits(a, device, rest);
        let (cb, cw, ci) = decomposed(c);
        assert(a.with_bit(d, bits.last() as int, false)[b.start() + cb] == d[b.start() + cb]);
    }
}

/// Setting or clearing one bit of a bitmap gives that bit the new value and
/// leaves every other bit as it was.
pub proof fn lemma_with_bit_changes_one_bit(bm: Bitmap, device: Seq<BitmapBlock>, bit: int, value: bool, c: int)
    requires
        0 <= bit,
        0 <= c,
        bm.start() + decomposed(bit).0 < device.len(),
        bm.start() + decomposed(c).0 < device.len(),
    ensures
        bm.is_set(bm.with_bit(device, bit, value), c) == if c == bit { value } else { bm.is_set(device, c) },
{
    lemma_decomposed_parts(bit);
    lemma_decomposed_parts(c);
    let (b, w, i) = decomposed(bit);
    let (cb, cw, ci) = decomposed(c);
    let k = bm.start() + b;
    let new = bm.with_bit(device, bit, value);
    if cb == b && cw == w {
        assert(new[k][w] == word_with_bit(device[k][w], i, value));
        lemma_word_bits(device[k][w], ci as u64, i as u64, value);
        if ci == i {
            assert(c == bit);
        }
    } else {
        if cb == b {
            assert(new[k][cw] == device[k][cw]);
        }
    }
}

/// Clearing the bit that an allocation has just set gives the device back as
/// it was before the allocation.
pub proof fn lemma_clear_undoes_set(bm: Bitmap, device: Seq<BitmapBlock>, bit: int)
    requires
        0 <= bit,
        bm.start() + decomposed(bit).0 < device.len(),
        !bm.is_set(device, bit),
    ensures
        bm.with_bit(bm.with_bit(device, bit, true), bit, false) == device,
{
    lemma_decomposed_parts(bit);
    let (b, w, i) = decomposed(bit);
    let k = bm.start() + b;
    let word = device[k][w];
    let once = bm.with_bit(device, bit, true);
    let twice = bm.with_bit(once, bit, false);
    let iu = i as u64;
    assert((word | (1u64 << iu)) & !(1u64 << iu) == word) by (bit_vector)
        requires (word >> iu) & 1u64 != 1u64, iu < 64;
    assert(twice[k] =~= device[k]);
    assert(twice =~= device);
}

/// Setting the bit that a deallocation has just cleared gives the device back
/// as it was before the deallocation.
pub proof fn lemma_set_undoes_clear(bm: Bitmap, device: Seq<BitmapBlock>, bit: int)
    requires
        0 <= bit,
        bm.start() + decomposed(bit).0 < device.len(),
        bm.is_set(device, bit),
    ensures
        bm.with_bit(bm.with_bit(device, bit, false), bit, true) == device,
{
    lemma_decomposed_parts(bit);
    let (b, w, i) = decomposed(bit);
    let k = bm.start() + b;
    let word = device[k][w];
    let twice = bm.with_bit(bm.with_bit(device, bit, false), bit, true);
    let iu = i as u64;
    assert((word & !(1u64 << iu)) | (1u64 << iu) == word) by (bit_vector)
        requires (word >> iu) & 1u64 == 1u64, iu < 64;
    assert(twice[k] =~= device[k]);
    assert(twice =~= device);
}

} // verus!
