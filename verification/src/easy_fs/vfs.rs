//! The directory layer of the file system: a directory is a sequence of
//! entries, each a name and the inode it names; an entry whose inode is 0
//! has been removed. Of each inode the directory layer keeps its kind, its
//! size and its count of the entries that name it.
use vstd::prelude::*;
use crate::easy_fs::bitmap::{
    Bitmap, BitmapBlock, cleared_bits, decomposed, held_bits, lemma_clear_undoes_set, lemma_cleared_keeps_other,
    lemma_with_bit_changes_one_bit,
};

verus! {

/// A directory entry, seen as its name and its inode.
pub type EntryView = (Seq<char>, u32);

/// The entry that a removed entry reads as: no name, inode 0.
pub open spec fn empty_entry() -> EntryView {
    (Seq::<char>::empty(), 0u32)
}

/// The index of the first entry named `name`, removed entries included.
pub open spec fn first_named(dir: Seq<EntryView>, name: Seq<char>) -> Option<int>
    decreases dir.len(),
{
    if dir.len() == 0 {
        None
    } else {
        match first_named(dir.drop_last(), name) {
            Some(i) => Some(i),
            None => if dir.last().0 == name { Some(dir.len() - 1) } else { None },
        }
    }
}

/// The index of the first entry named `name` that is not removed.
pub open spec fn first_live_named(dir: Seq<EntryView>, name: Seq<char>) -> Option<int>
    decreases dir.len(),
{
    if dir.len() == 0 {
        None
    } else {
        match first_live_named(dir.drop_last(), name) {
            Some(i) => Some(i),
            None => if dir.last().0 == name && dir.last().1 != 0 { Some(dir.len() - 1) } else { None },
        }
    }
}

/// The inode of the first entry named `name`.
pub open spec fn inode_named(dir: Seq<EntryView>, name: Seq<char>) -> Option<u32> {
    match first_named(dir, name) {
        Some(i) => Some(dir[i].1),
        None => None,
    }
}

/// The names of the entries that are not removed, in order.
pub open spec fn live_names(dir: Seq<EntryView>) -> Seq<Seq<char>>
    decreases dir.len(),
{
    if dir.len() == 0 {
        Seq::empty()
    } else {
        live_names(dir.drop_last()) + if dir.last().1 != 0 { seq![dir.last().0] } else { Seq::empty() }
    }
}

/// A directory entry.
pub struct DirEntry {
    pub name: String,
    pub inode_id: u32,
}

impl View for DirEntry {
    type V = EntryView;

    open spec fn view(&self) -> EntryView {
        (self.name@, self.inode_id)
    }
}

impl DirEntry {
    /// An empty entry: no name, inode 0.
    pub fn empty() -> (r: Self)
        ensures
            r@ == empty_entry(),
    {
        DirEntry { name: String::new(), inode_id: 0 }
    }

    /// An entry naming inode `inode_id` `name`.
    pub fn new(name: &str, inode_id: u32) -> (r: Self)
        ensures
            r@ == (name@, inode_id),
    {
        DirEntry { name: name.to_owned(), inode_id }
    }
}

/// The kind of an inode.
#[derive(Clone, Copy, Debug, PartialEq, Eq, Structural)]
pub enum DiskInodeType {
    File,
    Directory,
}

/// What the directory layer reads and writes of a disk inode: its kind, its
/// size in bytes and its number of hard links.
#[derive(Clone, Copy, Debug, PartialEq, Eq, Structural)]
pub struct InodeMeta {
    pub kind: DiskInodeType,
    pub size: u32,
    pub links: u16,
}

impl InodeMeta {
    /// Number of hard links.
    pub fn link_count(&self) -> (r: u16)
        ensures
            r == self.links,
    {
        self.links
    }

    /// Is the inode a directory?
    pub fn is_dir(&self) -> (r: bool)
        ensures
            r == (self.kind == DiskInodeType::Directory),
    {
        match self.kind {
            DiskInodeType::Directory => true,
            DiskInodeType::File => false,
        }
    }

    /// Is the inode a file?
    pub fn is_file(&self) -> (r: bool)
        ensures
            r == (self.kind == DiskInodeType::File),
    {
        match self.kind {
            DiskInodeType::File => true,
            DiskInodeType::Directory => false,
        }
    }
}

/// Clear the data in inode `id`: its size becomes 0 and each of its data
/// blocks, `blocks[id]`, numbered by their bits in the data bitmap, is freed.
pub fn clear(
    id: u32,
    inodes: &mut Vec<InodeMeta>,
    blocks: &mut Vec<Vec<u32>>,
    data_bitmap: &Bitmap,
    device: &mut Vec<BitmapBlock>,
)
    requires
        id < old(inodes)@.len(),
        id < old(blocks)@.len(),
        data_bitmap.fits(old(device)@),
        held_bits(*data_bitmap, old(device)@, old(blocks)@[id as int]@),
    ensures
        final(inodes)@ == old(inodes)@.update(id as int, InodeMeta {
            kind: old(inodes)@[id as int].kind,
            size: 0,
            links: old(inodes)@[id as int].links,
        }),
        final(blocks)@.len() == old(blocks)@.len(),
        final(blocks)@[id as int]@ == Seq::<u32>::empty(),
        forall|j: int| 0 <= j < old(blocks)@.len() && j != id ==> #[trigger] final(blocks)@[j] == old(blocks)@[j],
        final(device)@ == cleared_bits(*data_bitmap, old(device)@, old(blocks)@[id as int]@),
{
    let k = id as usize;
    data_bitmap.dealloc_each(device, &blocks[k]);
    blocks.set(k, Vec::new());
    let mut m = inodes[k];
    m.size = 0;
    inodes.set(k, m);
}

/// A freshly initialised inode: an empty file with one link.
pub open spec fn new_file() -> InodeMeta {
    InodeMeta { kind: DiskInodeType::File, size: 0, links: 1 }
}

/// `m` with one link more.
pub open spec fn linked(m: InodeMeta) -> InodeMeta {
    InodeMeta { kind: m.kind, size: m.size, links: (m.links + 1) as u16 }
}

/// `m` with one link less; losing its last link empties the inode.
pub open spec fn unlinked(m: InodeMeta) -> InodeMeta {
    if m.links == 1 {
        InodeMeta { kind: m.kind, size: 0, links: 0 }
    } else {
        InodeMeta { kind: m.kind, size: m.size, links: (m.links - 1) as u16 }
    }
}

/// The outcome of removing a directory entry: the inode it named, and
/// whether that was the inode's last link, in which case the inode was
/// emptied and its bit in the inode bitmap cleared.
#[derive(Clone, Copy, Debug, PartialEq, Eq, Structural)]
pub struct Unlinked {
    pub inode_id: u32,
    pub last_link: bool,
}

/// A directory: its entries in order.
pub struct Directory {
    entries: Vec<DirEntry>,
}

impl View for Directory {
    type V = Seq<EntryView>;

    closed spec fn view(&self) -> Seq<EntryView> {
        self.entries@.map_values(|e: DirEntry| e@)
    }
}

impl Directory {
    /// A directory with no entries.
    pub fn new() -> (r: Self)
        ensures
            r@ == Seq::<EntryView>::empty(),
    {
        let r = Directory { entries: Vec::new() };
        assert(r@ =~= Seq::<EntryView>::empty());
        r
    }

    /// Number of entries, removed ones included.
    pub fn file_count(&self) -> (r: usize)
        ensures
            r == self@.len(),
    {
        self.entries.len()
    }

    /// Append an entry naming inode `inode_id` `name`.
    pub fn push_entry(&mut self, name: &str, inode_id: u32)
        ensures
            final(self)@ == old(self)@.push((name@, inode_id)),
    {
        self.entries.push(DirEntry::new(name, inode_id));
        assert(self@ =~= old(self)@.push((name@, inode_id)));
    }

    /// Find inode under a disk inode by name: the inode of the first entry
    /// called `name`, removed entries included.
    pub fn find_inode_id(&self, name: &str) -> (r: Option<u32>)
        ensures
            r == inode_named(self@, name@),
    {
        let name_s = name.to_owned();
        let mut i: usize = 0;
        while i < self.entries.len()
            invariant
                i <= self@.len(),
                self@.len() == self.entries@.len(),
                name_s@ == name@,
                first_named(self@.take(i as int), name@) is None,
            decreases self@.len() - i,
        {
            let ghost prefix = self@.take(i as int);
            proof {
                assert(self@.take(i + 1).drop_last() =~= prefix);
                assert(self@[i as int] == self.entries@[i as int]@);
            }
            if self.entries[i].name == name_s {
                proof {
                    lemma_first_named_prefix(self@, name@, i as int);
                }
                return Some(self.entries[i].inode_id);
            }
            i += 1;
        }
        proof {
            assert(self@.take(i as int) =~= self@);
        }
        None
    }

    /// List inodes under current inode: the names of the entries that are
    /// not removed, in order.
    pub fn ls(&self) -> (r: Vec<String>)
        ensures
            r@.map_values(|s: String| s@) == live_names(self@),
    {
        let mut v: Vec<String> = Vec::new();
        let mut i: usize = 0;
        while i < self.entries.len()
            invariant
                i <= self@.len(),
                self@.len() == self.entries@.len(),
                v@.map_values(|s: String| s@) == live_names(self@.take(i as int)),
            decreases self@.len() - i,
        {
            proof {
                assert(self@.take(i + 1).drop_last() =~= self@.take(i as int));
                assert(self@[i as int] == self.entries@[i as int]@);
            }
            let ghost before = v@;
            if self.entries[i].inode_id != 0 {
                v.push(self.entries[i].name.clone());
                assert(v@.map_values(|s: String| s@) =~= before.map_values(|s: String| s@) + seq![self@[i as int].0]);
            } else {
                assert(v@.map_values(|s: String| s@) =~= before.map_values(|s: String| s@) + Seq::<Seq<char>>::empty());
            }
            i += 1;
        }
        proof {
            assert(self@.take(i as int) =~= self@);
        }
        v
    }

    /// Create a file `name`: when no entry is called so, an inode is taken
    /// from the inode bitmap (its lowest free bit), initialised as an empty
    /// file with one link and no data blocks, and an entry naming it is
    /// appended; `None` when the name is taken.
    pub fn create(
        &mut self,
        name: &str,
        inodes: &mut Vec<InodeMeta>,
        blocks: &mut Vec<Vec<u32>>,
        inode_bitmap: &Bitmap,
        device: &mut Vec<BitmapBlock>,
    ) -> (r: Option<u32>)
        requires
            inode_bitmap.fits(old(device)@),
            inode_bitmap.capacity() <= u32::MAX,
            inode_named(old(self)@, name@) is None ==> {
                &&& old(inodes)@.len() >= inode_bitmap.capacity()
                &&& old(blocks)@.len() >= inode_bitmap.capacity()
                &&& exists|c: int| 0 <= c < inode_bitmap.capacity() && !#[trigger] inode_bitmap.is_set(old(device)@, c)
            },
        ensures
            inode_named(old(self)@, name@) is Some ==> {
                &&& r is None
                &&& final(self)@ == old(self)@
                &&& final(inodes)@ == old(inodes)@
                &&& final(blocks)@ == old(blocks)@
                &&& final(device)@ == old(device)@
            },
            inode_named(old(self)@, name@) is None ==> {
                &&& r matches Some(id)
                &&& id < inode_bitmap.capacity()
                &&& !inode_bitmap.is_set(old(device)@, id as int)
                &&& forall|c: int| 0 <= c < id ==> #[trigger] inode_bitmap.is_set(old(device)@, c)
                &&& final(device)@ == inode_bitmap.with_bit(old(device)@, id as int, true)
                &&& final(inodes)@ == old(inodes)@.update(id as int, new_file())
                &&& final(blocks)@.len() == old(blocks)@.len()
                &&& final(blocks)@[id as int]@ == Seq::<u32>::empty()
                &&& forall|j: int| 0 <= j < old(blocks)@.len() && j != id ==> #[trigger] final(blocks)@[j] == old(blocks)@[j]
                &&& final(self)@ == old(self)@.push((name@, id))
            },
    {
        if self.find_inode_id(name).is_some() {
            return None;
        }
        let new_inode_id = match inode_bitmap.allocate(device) {
            Some(bit) => bit as u32,
            None => {
                proof {
                    let c = choose|c: int| 0 <= c < inode_bitmap.capacity() && !#[trigger] inode_bitmap.is_set(old(device)@, c);
                    assert(inode_bitmap.is_set(old(device)@, c));
                }
                return None;
            },
        };
        inodes.set(new_inode_id as usize, InodeMeta { kind: DiskInodeType::File, size: 0, links: 1 });
        blocks.set(new_inode_id as usize, Vec::new());
        self.push_entry(name, new_inode_id);
        Some(new_inode_id)
    }

    /// Link `new_name` to the inode of `old_name`: a slot is appended, the
    /// inode of the first entry called `old_name` is looked up (the new slot,
    /// still empty, counts too), its link count goes up, and the slot gets
    /// the new entry.
    pub fn do_linkat(&mut self, old_name: &str, new_name: &str, inodes: &mut Vec<InodeMeta>)
        requires
            inode_named(old(self)@.push(empty_entry()), old_name@) matches Some(id)
                && id < old(inodes)@.len() && old(inodes)@[id as int].links < u16::MAX,
        ensures
            ({
                let id = inode_named(old(self)@.push(empty_entry()), old_name@)->0;
                &&& final(self)@ == old(self)@.push((new_name@, id))
                &&& final(inodes)@ == old(inodes)@.update(id as int, linked(old(inodes)@[id as int]))
            }),
    {
        self.entries.push(DirEntry::empty());
        assert(self@ =~= old(self)@.push(empty_entry()));
        let inode_id = self.find_inode_id(old_name).unwrap();
        let k = inode_id as usize;
        let mut m = inodes[k];
        m.links = m.links + 1;
        inodes.set(k, m);
        let last = self.entries.len() - 1;
        self.entries.set(last, DirEntry::new(new_name, inode_id));
        assert(self@ =~= old(self)@.push((new_name@, inode_id)));
    }

    /// The index of the first entry called `name` that is not removed.
    fn find_live(&self, name: &str) -> (r: Option<usize>)
        ensures
            r matches Some(i) ==> first_live_named(self@, name@) == Some(i as int),
            r is None ==> first_live_named(self@, name@) is None,
    {
        let name_s = name.to_owned();
        let mut i: usize = 0;
        while i < self.entries.len()
            invariant
                i <= self@.len(),
                self@.len() == self.entries@.len(),
                name_s@ == name@,
                first_live_named(self@.take(i as int), name@) is None,
            decreases self@.len() - i,
        {
            proof {
                assert(self@.take(i + 1).drop_last() =~= self@.take(i as int));
                assert(self@[i as int] == self.entries@[i as int]@);
            }
            if self.entries[i].inode_id != 0 && self.entries[i].name == name_s {
                proof {
                    lemma_first_live_named_prefix(self@, name@, i as int);
                }
                return Some(i);
            }
            i += 1;
        }
        proof {
            assert(self@.take(i as int) =~= self@);
        }
        None
    }

    /// Remove the first entry called `name` that is not removed yet: it is
    /// cleared and the link count of its inode goes down; when that was the
    /// last link the inode's data blocks are freed in the data bitmap, the
    /// inode is emptied, and its bit in the inode bitmap cleared. `None` when
    /// there is no such entry.
    pub fn do_unlinkat(
        &mut self,
        name: &str,
        inodes: &mut Vec<InodeMeta>,
        blocks: &mut Vec<Vec<u32>>,
        inode_bitmap: &Bitmap,
        data_bitmap: &Bitmap,
        device: &mut Vec<BitmapBlock>,
    ) -> (r: Option<Unlinked>)
        requires
            first_live_named(old(self)@, name@) matches Some(i) ==> ({
                let id = old(self)@[i].1;
                &&& id < old(inodes)@.len()
                &&& old(inodes)@[id as int].links >= 1
                &&& old(inodes)@[id as int].links == 1 ==> {
                    &&& inode_bitmap.fits(old(device)@)
                    &&& id < inode_bitmap.capacity()
                    &&& inode_bitmap.is_set(old(device)@, id as int)
                    &&& data_bitmap.fits(old(device)@)
                    &&& inode_bitmap.start() + inode_bitmap.num_blocks() <= data_bitmap.start()
                    &&& id < old(blocks)@.len()
                    &&& held_bits(*data_bitmap, old(device)@, old(blocks)@[id as int]@)
                }
            }),
        ensures
            match first_live_named(old(self)@, name@) {
                None => {
                    &&& r is None
                    &&& final(self)@ == old(self)@
                    &&& final(inodes)@ == old(inodes)@
                    &&& final(blocks)@ == old(blocks)@
                    &&& final(device)@ == old(device)@
                },
                Some(i) => {
                    let id = old(self)@[i].1;
                    let last = old(inodes)@[id as int].links == 1;
                    &&& r == Some(Unlinked { inode_id: id, last_link: last })
                    &&& final(self)@ == old(self)@.update(i, empty_entry())
                    &&& final(inodes)@ == old(inodes)@.update(id as int, unlinked(old(inodes)@[id as int]))
                    &&& last ==> {
                        &&& final(device)@ == inode_bitmap.with_bit(
                            cleared_bits(*data_bitmap, old(device)@, old(blocks)@[id as int]@),
                            id as int,
                            false,
                        )
                        &&& final(blocks)@.len() == old(blocks)@.len()
                        &&& final(blocks)@[id as int]@ == Seq::<u32>::empty()
                        &&& forall|j: int| 0 <= j < old(blocks)@.len() && j != id ==> #[trigger] final(blocks)@[j] == old(blocks)@[j]
                    }
                    &&& !last ==> final(device)@ == old(device)@ && final(blocks)@ == old(blocks)@
                },
            },
    {
        let slot = match self.find_live(name) {
            Some(i) => i,
            None => return None,
        };
        proof {
            lemma_first_live_named_facts(self@, name@);
        }
        let old_inode_id = self.entries[slot].inode_id;
        proof {
            assert(self@[slot as int] == self.entries@[slot as int]@);
        }
        self.entries.set(slot, DirEntry::empty());
        assert(self@ =~= old(self)@.update(slot as int, empty_entry()));
        let k = old_inode_id as usize;
        let mut m = inodes[k];
        m.links = m.links - 1;
        inodes.set(k, m);
        let last_link = m.links == 0;
        if last_link {
            let ghost data_bits = blocks@[k as int]@;
            clear(old_inode_id, inodes, blocks, data_bitmap, device);
            proof {
                assert forall|j: int| 0 <= j < data_bits.len() implies #[trigger] data_bits[j] < data_bitmap.capacity() by {}
                lemma_cleared_keeps_other(*data_bitmap, *inode_bitmap, old(device)@, data_bits, k as int);
                let n = inode_bitmap.capacity() / 4096;
                assert(k / 4096 < n) by (nonlinear_arith)
                    requires k < inode_bitmap.capacity(), inode_bitmap.capacity() == n * 4096, n >= 0;
            }
            inode_bitmap.dealloc(device, k);
        }
        Some(Unlinked { inode_id: old_inode_id, last_link })
    }
}

/// The first entry named `name` lies in the directory and has that name.
pub proof fn lemma_first_named_facts(dir: Seq<EntryView>, name: Seq<char>)
    ensures
        first_named(dir, name) matches Some(i) ==> 0 <= i < dir.len() && dir[i].0 == name
            && forall|j: int| 0 <= j < i ==> #[trigger] dir[j].0 != name,
        first_named(dir, name) is None ==> forall|j: int| 0 <= j < dir.len() ==> #[trigger] dir[j].0 != name,
    decreases dir.len(),
{
    if dir.len() > 0 {
        lemma_first_named_facts(dir.drop_last(), name);
        assert forall|j: int| 0 <= j < dir.len() - 1 implies #[trigger] dir[j] == dir.drop_last()[j] by {}
    }
}

/// The first live entry named `name` lies in the directory, has that name
/// and is not removed.
pub proof fn lemma_first_live_named_facts(dir: Seq<EntryView>, name: Seq<char>)
    ensures
        first_live_named(dir, name) matches Some(i) ==> 0 <= i < dir.len() && dir[i].0 == name && dir[i].1 != 0
            && forall|j: int| 0 <= j < i ==> !(#[trigger] dir[j].0 == name && dir[j].1 != 0),
        first_live_named(dir, name) is None ==> forall|j: int| 0 <= j < dir.len() ==> !(#[trigger] dir[j].0 == name && dir[j].1 != 0),
    decreases dir.len(),
{
    if dir.len() > 0 {
        lemma_first_live_named_facts(dir.drop_last(), name);
        assert forall|j: int| 0 <= j < dir.len() - 1 implies #[trigger] dir[j] == dir.drop_last()[j] by {}
    }
}

proof fn lemma_first_named_prefix(dir: Seq<EntryView>, name: Seq<char>, i: int)
    requires
        0 <= i < dir.len(),
        first_named(dir.take(i), name) is None,
        dir[i].0 == name,
    ensures
        first_named(dir, name) == Some(i),
    decreases dir.len() - i,
{
    if i == dir.len() - 1 {
        assert(dir.drop_last() =~= dir.take(i));
    } else {
        assert(dir.drop_last().take(i) =~= dir.take(i));
        lemma_first_named_prefix(dir.drop_last(), name, i);
    }
}

proof fn lemma_first_live_named_prefix(dir: Seq<EntryView>, name: Seq<char>, i: int)
    requires
        0 <= i < dir.len(),
        first_live_named(dir.take(i), name) is None,
        dir[i].0 == name,
        dir[i].1 != 0,
    ensures
        first_live_named(dir, name) == Some(i),
    decreases dir.len() - i,
{
    if i == dir.len() - 1 {
        assert(dir.drop_last() =~= dir.take(i));
    } else {
        assert(dir.drop_last().take(i) =~= dir.take(i));
        lemma_first_live_named_prefix(dir.drop_last(), name, i);
    }
}

/// After an entry named `name` is appended to a directory where no entry
/// had that name, looking `name` up gives the new entry's inode, and `ls`
/// lists the name last when the inode is not 0.
pub proof fn lemma_find_after_push(dir: Seq<EntryView>, name: Seq<char>, id: u32)
    requires
        inode_named(dir, name) is None,
    ensures
        inode_named(dir.push((name, id)), name) == Some(id),
        live_names(dir.push((name, id))) == live_names(dir) + if id != 0 { seq![name] } else { Seq::empty() },
{
    assert(dir.push((name, id)).drop_last() =~= dir);
}

/// Unlinking the name that a link has just added, when no live entry had
/// that name before and the inode had a link, brings every inode back as it
/// was and leaves the directory as before plus one empty slot.
pub proof fn lemma_unlink_undoes_link(dir: Seq<EntryView>, inodes: Seq<InodeMeta>, new_name: Seq<char>, id: u32)
    requires
        first_live_named(dir, new_name) is None,
        id != 0,
        id < inodes.len(),
        1 <= inodes[id as int].links < u16::MAX,
    ensures
        ({
            let linked_dir = dir.push((new_name, id));
            let counted = inodes.update(id as int, linked(inodes[id as int]));
            &&& first_live_named(linked_dir, new_name) == Some(dir.len() as int)
            &&& linked_dir.update(dir.len() as int, empty_entry()) == dir.push(empty_entry())
            &&& counted[id as int].links != 1
            &&& counted.update(id as int, unlinked(counted[id as int])) == inodes
        }),
{
    let linked_dir = dir.push((new_name, id));
    assert(linked_dir.drop_last() =~= dir);
    assert(linked_dir.update(dir.len() as int, empty_entry()) =~= dir.push(empty_entry()));
    let counted = inodes.update(id as int, linked(inodes[id as int]));
    assert(counted.update(id as int, unlinked(counted[id as int])) =~= inodes);
}

/// Creating a file under a name that no entry has and then unlinking that
/// name gives the bitmaps back as they were (the new file holds no data
/// block), leaves the new inode emptied with no link, and the directory as
/// before plus one empty slot.
pub proof fn lemma_unlink_undoes_create(
    dir: Seq<EntryView>,
    inodes: Seq<InodeMeta>,
    bm: Bitmap,
    data_bitmap: Bitmap,
    device: Seq<BitmapBlock>,
    name: Seq<char>,
    id: u32,
)
    requires
        inode_named(dir, name) is None,
        bm.fits(device),
        0 < id < bm.capacity(),
        id < inodes.len(),
        !bm.is_set(device, id as int),
    ensures
        ({
            let created = dir.push((name, id));
            let ino = inodes.update(id as int, new_file());
            let dev = bm.with_bit(device, id as int, true);
            &&& first_live_named(created, name) == Some(dir.len() as int)
            &&& ino[id as int].links == 1
            &&& bm.is_set(dev, id as int)
            &&& created.update(dir.len() as int, empty_entry()) == dir.push(empty_entry())
            &&& ino.update(id as int, unlinked(ino[id as int]))[id as int]
                == InodeMeta { kind: DiskInodeType::File, size: 0, links: 0 }
            &&& bm.with_bit(cleared_bits(data_bitmap, dev, Seq::<u32>::empty()), id as int, false) == device
        }),
{
    let created = dir.push((name, id));
    lemma_first_named_facts(dir, name);
    lemma_first_live_named_facts(dir, name);
    assert(first_live_named(dir, name) is None);
    assert(created.drop_last() =~= dir);
    assert(created.update(dir.len() as int, empty_entry()) =~= dir.push(empty_entry()));
    let n = bm.capacity() / 4096;
    assert(decomposed(id as int).0 < n) by (nonlinear_arith)
        requires id < bm.capacity(), bm.capacity() == n * 4096, n >= 0, decomposed(id as int).0 == id / 4096;
    lemma_with_bit_changes_one_bit(bm, device, id as int, true, id as int);
    lemma_clear_undoes_set(bm, device, id as int);
}

} // verus!
