use rcore_os::easy_fs::bitmap::{decomposition, Bitmap, BitmapBlock, BLOCK_BITS};

fn device(blocks: usize) -> Vec<BitmapBlock> {
    vec![[0u64; 64]; blocks]
}

#[test]
fn decomposition_splits_bit_index() {
    assert_eq!(decomposition(0), (0, 0, 0));
    assert_eq!(decomposition(65), (0, 1, 1));
    assert_eq!(decomposition(4096 + 130), (1, 2, 2));
    assert_eq!(decomposition(3 * 4096 + 63 * 64 + 63), (3, 63, 63));
}

#[test]
fn maximum_is_bits_of_all_blocks() {
    assert_eq!(Bitmap::new(2, 3).maximum(), 3 * BLOCK_BITS);
    assert_eq!(Bitmap::new(0, 0).maximum(), 0);
}

#[test]
fn allocate_hands_out_lowest_free_bit() {
    let bm = Bitmap::new(1, 2);
    let mut dev = device(3);
    assert_eq!(bm.allocate(&mut dev), Some(0));
    assert_eq!(bm.allocate(&mut dev), Some(1));
    assert_eq!(dev[1][0], 0b11);
    assert_eq!(dev[0], [0u64; 64]);
    dev[1][0] = u64::MAX;
    dev[1][1] = 0b1011;
    assert_eq!(bm.allocate(&mut dev), Some(64 + 2));
    assert_eq!(dev[1][1], 0b1111);
}

#[test]
fn allocate_moves_to_next_block_and_fails_when_full() {
    let bm = Bitmap::new(0, 2);
    let mut dev = device(2);
    dev[0] = [u64::MAX; 64];
    assert_eq!(bm.allocate(&mut dev), Some(4096));
    dev[1] = [u64::MAX; 64];
    let before = dev.clone();
    assert_eq!(bm.allocate(&mut dev), None);
    assert_eq!(dev, before);
}

#[test]
fn dealloc_clears_the_bit_and_undoes_allocate() {
    let bm = Bitmap::new(0, 1);
    let mut dev = device(1);
    dev[0][5] = 0b1010;
    let before = dev.clone();
    let bit = bm.allocate(&mut dev).unwrap();
    assert_eq!(bit, 0);
    bm.dealloc(&mut dev, bit);
    assert_eq!(dev, before);
    bm.dealloc(&mut dev, 5 * 64 + 3);
    assert_eq!(dev[0][5], 0b0010);
}
