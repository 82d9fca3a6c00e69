use rcore_os::easy_fs::bitmap::{Bitmap, BitmapBlock};
use rcore_os::easy_fs::vfs::{clear, DiskInodeType, Directory, InodeMeta, Unlinked};

/// The inode bitmap in block 0 and the data bitmap in block 1 of the device.
fn data_bitmap() -> Bitmap {
    Bitmap::new(1, 1)
}

fn inodes() -> (Bitmap, Vec<BitmapBlock>, Vec<InodeMeta>) {
    let bm = Bitmap::new(0, 1);
    let mut dev = vec![[0u64; 64]; 2];
    // inode 0 is the root directory
    dev[0][0] = 1;
    let mut metas = vec![InodeMeta { kind: DiskInodeType::File, size: 0, links: 0 }; 4096];
    metas[0] = InodeMeta { kind: DiskInodeType::Directory, size: 0, links: 1 };
    (bm, dev, metas)
}

fn no_blocks() -> Vec<Vec<u32>> {
    vec![Vec::new(); 4096]
}

fn file(size: u32, links: u16) -> InodeMeta {
    InodeMeta { kind: DiskInodeType::File, size, links }
}

#[test]
fn create_takes_the_lowest_free_inode_and_refuses_a_taken_name() {
    let (bm, mut dev, mut metas) = inodes();
    let mut blocks = no_blocks();
    let mut root = Directory::new();
    assert_eq!(root.create("a", &mut metas, &mut blocks, &bm, &mut dev), Some(1));
    assert_eq!(root.create("b", &mut metas, &mut blocks, &bm, &mut dev), Some(2));
    assert_eq!(root.create("a", &mut metas, &mut blocks, &bm, &mut dev), None);
    assert_eq!(dev[0][0], 0b111);
    assert_eq!(metas[1], file(0, 1));
    assert_eq!(metas[2], file(0, 1));
    assert_eq!(metas[3], file(0, 0));
    assert_eq!(root.find_inode_id("a"), Some(1));
    assert_eq!(root.find_inode_id("b"), Some(2));
    assert_eq!(root.find_inode_id("c"), None);
    assert_eq!(root.ls(), vec!["a".to_string(), "b".to_string()]);
    assert_eq!(root.file_count(), 2);
}

#[test]
fn create_initialises_a_reused_inode_as_an_empty_file() {
    let (bm, mut dev, mut metas) = inodes();
    let mut blocks = no_blocks();
    metas[1] = InodeMeta { kind: DiskInodeType::Directory, size: 512, links: 7 };
    let mut root = Directory::new();
    assert_eq!(root.create("a", &mut metas, &mut blocks, &bm, &mut dev), Some(1));
    assert_eq!(metas[1], file(0, 1));
}

#[test]
fn link_adds_a_name_for_the_same_inode() {
    let (bm, mut dev, mut metas) = inodes();
    let mut blocks = no_blocks();
    let mut root = Directory::new();
    root.create("a", &mut metas, &mut blocks, &bm, &mut dev);
    root.do_linkat("a", "b", &mut metas);
    assert_eq!(metas[1], file(0, 2));
    assert_eq!(root.find_inode_id("b"), Some(1));
    assert_eq!(root.ls(), vec!["a".to_string(), "b".to_string()]);
}

#[test]
fn unlink_removes_the_first_live_entry() {
    let (bm, mut dev, mut metas) = inodes();
    let mut blocks = no_blocks();
    let mut root = Directory::new();
    root.create("a", &mut metas, &mut blocks, &bm, &mut dev);
    metas[1].size = 100;
    root.do_linkat("a", "b", &mut metas);
    assert_eq!(
        root.do_unlinkat("a", &mut metas, &mut blocks, &bm, &data_bitmap(), &mut dev),
        Some(Unlinked { inode_id: 1, last_link: false })
    );
    assert_eq!(metas[1], file(100, 1));
    assert_eq!(dev[0][0], 0b11);
    assert_eq!(root.ls(), vec!["b".to_string()]);
    assert_eq!(root.do_unlinkat("a", &mut metas, &mut blocks, &bm, &data_bitmap(), &mut dev), None);
    assert_eq!(
        root.do_unlinkat("b", &mut metas, &mut blocks, &bm, &data_bitmap(), &mut dev),
        Some(Unlinked { inode_id: 1, last_link: true })
    );
    // the last link gone, the inode is emptied and its bit freed
    assert_eq!(metas[1], file(0, 0));
    assert_eq!(dev[0][0], 0b1);
    assert_eq!(dev[1][0], 0);
    assert!(root.ls().is_empty());
    // removed entries still take their slots, named "" with inode 0
    assert_eq!(root.file_count(), 2);
    assert_eq!(root.find_inode_id(""), Some(0));
}

#[test]
fn unlinking_a_missing_name_changes_nothing() {
    let (bm, mut dev, mut metas) = inodes();
    let mut blocks = no_blocks();
    let mut root = Directory::new();
    root.create("a", &mut metas, &mut blocks, &bm, &mut dev);
    assert_eq!(root.do_unlinkat("zz", &mut metas, &mut blocks, &bm, &data_bitmap(), &mut dev), None);
    assert_eq!(metas[1], file(0, 1));
    assert_eq!(dev[0][0], 0b11);
    assert_eq!(root.ls(), vec!["a".to_string()]);
}

#[test]
fn a_freed_inode_is_taken_again_by_create() {
    let (bm, mut dev, mut metas) = inodes();
    let mut blocks = no_blocks();
    let mut root = Directory::new();
    root.create("a", &mut metas, &mut blocks, &bm, &mut dev);
    root.create("b", &mut metas, &mut blocks, &bm, &mut dev);
    root.do_unlinkat("a", &mut metas, &mut blocks, &bm, &data_bitmap(), &mut dev);
    assert_eq!(root.create("c", &mut metas, &mut blocks, &bm, &mut dev), Some(1));
    assert_eq!(root.find_inode_id("c"), Some(1));
}

#[test]
fn unlinking_a_new_link_restores_link_counts() {
    let (bm, mut dev, mut metas) = inodes();
    let mut blocks = no_blocks();
    let mut root = Directory::new();
    root.create("a", &mut metas, &mut blocks, &bm, &mut dev);
    root.do_linkat("a", "b", &mut metas);
    assert_eq!(
        root.do_unlinkat("b", &mut metas, &mut blocks, &bm, &data_bitmap(), &mut dev),
        Some(Unlinked { inode_id: 1, last_link: false })
    );
    assert_eq!(metas[1], file(0, 1));
    assert_eq!(root.ls(), vec!["a".to_string()]);
    assert_eq!(root.find_inode_id("a"), Some(1));
}

#[test]
fn unlinking_a_new_file_restores_the_inode_bitmap() {
    let (bm, mut dev, mut metas) = inodes();
    let mut blocks = no_blocks();
    let before = dev.clone();
    let mut root = Directory::new();
    let id = root.create("f", &mut metas, &mut blocks, &bm, &mut dev).unwrap();
    assert_ne!(dev, before);
    assert_eq!(
        root.do_unlinkat("f", &mut metas, &mut blocks, &bm, &data_bitmap(), &mut dev),
        Some(Unlinked { inode_id: id, last_link: true })
    );
    assert_eq!(dev, before);
    assert_eq!(metas[id as usize], file(0, 0));
    assert_eq!(root.file_count(), 1);
    assert!(root.ls().is_empty());
}

#[test]
fn the_last_unlink_frees_the_data_blocks() {
    let (bm, mut dev, mut metas) = inodes();
    let mut blocks = no_blocks();
    let mut root = Directory::new();
    let id = root.create("f", &mut metas, &mut blocks, &bm, &mut dev).unwrap() as usize;
    // the file has grown to data blocks 3 and 5 of the data area
    blocks[id] = vec![3, 5];
    dev[1][0] = (1 << 3) | (1 << 5) | (1 << 9);
    metas[id].size = 700;
    root.do_linkat("f", "g", &mut metas);
    root.do_unlinkat("f", &mut metas, &mut blocks, &bm, &data_bitmap(), &mut dev);
    assert_eq!(dev[1][0], (1 << 3) | (1 << 5) | (1 << 9));
    assert_eq!(blocks[id], vec![3, 5]);
    root.do_unlinkat("g", &mut metas, &mut blocks, &bm, &data_bitmap(), &mut dev);
    assert_eq!(dev[1][0], 1 << 9);
    assert_eq!(dev[0][0], 0b1);
    assert!(blocks[id].is_empty());
    assert_eq!(metas[id], file(0, 0));
}

#[test]
fn clear_empties_an_inode_and_frees_its_blocks() {
    let (_bm, mut dev, mut metas) = inodes();
    let mut blocks = no_blocks();
    metas[2] = InodeMeta { kind: DiskInodeType::File, size: 1024, links: 1 };
    blocks[2] = vec![0, 64];
    dev[1][0] = 1;
    dev[1][1] = 1;
    clear(2, &mut metas, &mut blocks, &data_bitmap(), &mut dev);
    assert_eq!(metas[2], file(0, 1));
    assert!(blocks[2].is_empty());
    assert_eq!((dev[1][0], dev[1][1]), (0, 0));
}

#[test]
fn inode_kind_and_links_are_read_back() {
    let d = InodeMeta { kind: DiskInodeType::Directory, size: 0, links: 2 };
    assert!(d.is_dir() && !d.is_file());
    assert_eq!(d.link_count(), 2);
    assert!(file(0, 1).is_file());
}
