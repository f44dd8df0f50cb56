use vstd::prelude::*;
use crate::block::{Block, MetaData};
use crate::codec::zero_block;
use crate::constants::BLOCK_SIZE;
use crate::data_ptr::{adds_block, can_save, pointer_block, saved};
use crate::disk::Disk;
use crate::inode::{Inode, InodeProxy, in_table, inode_at, loaded_pointers, table_in_disk};
use crate::read_iter::file_blocks;
use crate::utility::{InodeTable, get_inode_block, table_index, table_sets_inode};

verus! {

/// The bytes of block `num` of the disk `d`, or zeros when it lies past the end.
pub open spec fn disk_block(d: Seq<Seq<u8>>, num: int) -> Seq<u8> {
    if 0 <= num < d.len() {
        d[num]
    } else {
        zero_block()
    }
}

/// The disk `d` with block `num` holding `b`, when that block lies on the disk.
pub open spec fn with_block(d: Seq<Seq<u8>>, num: u32, b: Seq<u8>) -> Seq<Seq<u8>> {
    if num < d.len() {
        d.update(num as int, b)
    } else {
        d
    }
}

/// The block of the inode table `t` that holds inode `inumber`.
pub open spec fn table_block(t: Seq<(u32, crate::block::InodeBlock)>, inumber: int) -> int {
    t[table_index(inumber)].0 as int
}

/// Writing the inode of `it` to its block of the inode table `t`, and then its data pointers,
/// took the disk `d1` to `d2`: every other block is kept, and pointers with no lower levels
/// land in their top block when they fit on the disk.
pub open spec fn inode_written(it: InodeWriteIter, t: Seq<(u32, crate::block::InodeBlock)>, d1: Seq<Seq<u8>>, d2: Seq<Seq<u8>>) -> bool {
    let e0 = table_block(t, it.inumber as int);
    &&& d2.len() == d1.len()
    &&& match it.inode.data_manager {
        Some(m) => m@.indirect.len() == 0 ==> forall|k: int| 0 <= k < d1.len() && k != e0 ==>
            #[trigger] d2[k] == if k == m@.root && can_save(m@, d1.len()) { pointer_block(m@.direct) } else { d1[k] },
        None => forall|k: int| 0 <= k < d1.len() && k != e0 ==> #[trigger] d2[k] == d1[k],
    }
    &&& match it.inode.data_manager {
        Some(m) => exists|de: Seq<Seq<u8>>| #[trigger] agrees_off(de, d1, e0)
            && d2 == (if can_save(m@, d1.len()) { saved(de, m@) } else { de }),
        None => true,
    }
}

/// What `inode_written` says of one iterator it says of another with the same inode.
proof fn lemma_inode_written_same(a: InodeWriteIter, b: InodeWriteIter, t: Seq<(u32, crate::block::InodeBlock)>, d1: Seq<Seq<u8>>, d2: Seq<Seq<u8>>)
    requires
        inode_written(a, t, d1, d2),
        b.inumber == a.inumber,
        b.inode == a.inode,
    ensures
        inode_written(b, t, d1, d2),
{
}

/// After `inode_written`, a block that is not the inode table block, the root block or a block
/// of the one pointer level is as it was.
pub proof fn lemma_written_other(it: InodeWriteIter, t: Seq<(u32, crate::block::InodeBlock)>, d1: Seq<Seq<u8>>, d2: Seq<Seq<u8>>, k: int)
    requires
        inode_written(it, t, d1, d2),
        it.inode.data_manager is Some,
        it.inode.data_manager.unwrap()@.indirect.len() <= 1,
        0 <= k < d1.len(),
        k != table_block(t, it.inumber as int),
        k != it.inode.data_manager.unwrap()@.root,
        it.inode.data_manager.unwrap()@.indirect.len() == 1 ==> forall|j: int|
            0 <= j < it.inode.data_manager.unwrap()@.indirect[0].len() ==> #[trigger] it.inode.data_manager.unwrap()@.indirect[0][j] != k,
    ensures
        d2[k] == d1[k],
{
    let v = it.inode.data_manager.unwrap()@;
    let e0 = table_block(t, it.inumber as int);
    let de = choose|de: Seq<Seq<u8>>| #[trigger] agrees_off(de, d1, e0)
        && d2 == (if can_save(v, d1.len()) { saved(de, v) } else { de });
    if can_save(v, d1.len()) {
        crate::data_ptr::lemma_saved_other(de, v, k);
    }
}

/// The disk `de` is `d1` but for block `e0`.
pub open spec fn agrees_off(de: Seq<Seq<u8>>, d1: Seq<Seq<u8>>, e0: int) -> bool {
    &&& de.len() == d1.len()
    &&& forall|k: int| 0 <= k < d1.len() && k != e0 ==> #[trigger] de[k] == d1[k]
}

/// Writes a file one byte after the other, from its end.
pub struct InodeWriteIter {
    pub inumber: usize,
    pub inode: InodeProxy,
    pub data_blocks: Vec<u32>,
    pub curr_data_block: Block,
    pub data_block_num: u32,
    pub data_block_index: usize,
    pub next_write_index: usize,
    /// The bytes of the current block before this index are counted in the file size.
    pub counted_index: usize,
    pub flushed: bool,
    pub aligned_to_block: bool,
}

/// The parts that the iterator works on fit together.
pub open spec fn write_ready(it: InodeWriteIter, t: Seq<(u32, crate::block::InodeBlock)>, d: Seq<Seq<u8>>) -> bool {
    &&& it.inode.inumber == it.inumber
    &&& in_table(t, it.inumber as int)
    &&& table_in_disk(t, d.len())
    &&& it.next_write_index <= BLOCK_SIZE
    &&& it.counted_index <= it.next_write_index
}

impl InodeWriteIter {
    /// An iterator at the end of file `inumber`.
    pub fn new(inumber: usize, disk: &mut Disk, inode_table: &InodeTable) -> (r: InodeWriteIter)
        requires
            in_table(inode_table@, inumber as int),
            table_in_disk(inode_table@, old(disk)@.len()),
        ensures
            write_ready(r, inode_table@, old(disk)@),
            r.inumber == inumber,
            r.data_blocks@ == file_blocks(old(disk)@, inode_at(inode_table@, inumber as int)),
            r.inode.inumber == inumber,
            inode_at(inode_table@, inumber as int).data_block != 0 ==> r.inode.data_manager is Some
                && r.inode.data_manager.unwrap()@ == loaded_pointers(old(disk)@, inode_at(inode_table@, inumber as int)),
            inode_at(inode_table@, inumber as int).data_block == 0 ==> r.inode.data_manager is None,
            r.flushed,
            !r.aligned_to_block,
            r.counted_index == r.next_write_index,
            ({
                let size = inode_at(inode_table@, inumber as int).size as int;
                &&& r.data_block_index == size / BLOCK_SIZE as int
                &&& if r.data_block_index < r.data_blocks@.len() {
                    &&& r.next_write_index == size % BLOCK_SIZE as int
                    &&& r.data_block_num == r.data_blocks@[r.data_block_index as int]
                    &&& r.curr_data_block@ == disk_block(old(disk)@, r.data_block_num as int)
                } else {
                    &&& r.next_write_index == BLOCK_SIZE
                    &&& r.data_block_num == 0
                    &&& r.curr_data_block@ == zero_block()
                }
            }),
            final(disk)@ == old(disk)@,
            final(disk).mount_count() == old(disk).mount_count(),
            final(disk).path_view() == old(disk).path_view(),
    {
        let inode = InodeProxy::new(inumber);
        let mut inode2 = InodeProxy::new(inumber);
        let data_blocks = inode2.to_direct_pointers(inode_table, disk);
        let i_write = InodeWriteIter {
            inumber,
            data_blocks,
            inode,
            curr_data_block: Block::new(),
            data_block_num: 0,
            data_block_index: 0,
            next_write_index: 0,
            counted_index: 0,
            flushed: true,
            aligned_to_block: false,
        };
        i_write.seek_to_end(disk, inode_table)
    }

    /// Moves to byte `offset`: to its block when the file has it, else past the last block.
    pub fn seek(&mut self, offset: usize, disk: &mut Disk)
        ensures
            final(self).data_block_index == offset / BLOCK_SIZE,
            final(self).counted_index == final(self).next_write_index,
            final(self).data_blocks == old(self).data_blocks,
            final(self).inode == old(self).inode,
            final(self).inumber == old(self).inumber,
            final(self).flushed == old(self).flushed,
            final(self).aligned_to_block == old(self).aligned_to_block,
            if offset / BLOCK_SIZE < old(self).data_blocks@.len() {
                &&& final(self).next_write_index == offset % BLOCK_SIZE
                &&& final(self).data_block_num == old(self).data_blocks@[(offset / BLOCK_SIZE) as int]
                &&& final(self).curr_data_block@ == disk_block(old(disk)@, final(self).data_block_num as int)
            } else {
                &&& final(self).next_write_index == BLOCK_SIZE
                &&& final(self).data_block_num == 0
                &&& final(self).curr_data_block@ == zero_block()
            },
            final(disk)@ == old(disk)@,
            final(disk).mount_count() == old(disk).mount_count(),
            final(disk).path_view() == old(disk).path_view(),
    {
        self.data_block_index = offset / BLOCK_SIZE;
        self.next_write_index = offset % BLOCK_SIZE;
        if self.data_block_index < self.data_blocks.len() {
            self.data_block_num = self.data_blocks[self.data_block_index];
            let mut curr_blk = Block::new();
            if (self.data_block_num as usize) < disk.size() {
                disk.read(self.data_block_num as usize, curr_blk.data_as_mut());
            }
            self.curr_data_block = curr_blk;
        } else {
            self.next_write_index = BLOCK_SIZE;
            self.data_block_num = 0;
            self.curr_data_block = Block::new();
        }
        self.counted_index = self.next_write_index;
    }

    /// Moves to the end of the file, and reads the data pointers of its inode.
    pub fn seek_to_end(self, disk: &mut Disk, inode_table: &InodeTable) -> (r: Self)
        requires
            self.inode.inumber == self.inumber,
            in_table(inode_table@, self.inumber as int),
        ensures
            ({
                let size = inode_at(inode_table@, self.inumber as int).size as int;
                &&& r.data_block_index == size / BLOCK_SIZE as int
                &&& r.counted_index == r.next_write_index
                &&& r.data_blocks == self.data_blocks
                &&& r.inumber == self.inumber
                &&& r.inode.inumber == self.inumber
                &&& inode_at(inode_table@, self.inumber as int).data_block != 0 ==> r.inode.data_manager is Some
                    && r.inode.data_manager.unwrap()@ == loaded_pointers(old(disk)@, inode_at(inode_table@, self.inumber as int))
                &&& inode_at(inode_table@, self.inumber as int).data_block == 0 ==> r.inode.data_manager == self.inode.data_manager
                &&& r.flushed == self.flushed
                &&& r.aligned_to_block == self.aligned_to_block
                &&& if r.data_block_index < self.data_blocks@.len() {
                    &&& r.next_write_index == size % BLOCK_SIZE as int
                    &&& r.data_block_num == self.data_blocks@[r.data_block_index as int]
                    &&& r.curr_data_block@ == disk_block(old(disk)@, r.data_block_num as int)
                } else {
                    &&& r.next_write_index == BLOCK_SIZE
                    &&& r.data_block_num == 0
                    &&& r.curr_data_block@ == zero_block()
                }
            }),
            final(disk)@ == old(disk)@,
            final(disk).mount_count() == old(disk).mount_count(),
            final(disk).path_view() == old(disk).path_view(),
    {
        let mut s = self;
        let offset = s.inode.size(inode_table) as usize;
        s.inode.init_datablocks(inode_table, disk);
        s.seek(offset, disk);
        s
    }

    /// Whether the inode has a block for the top level of its data pointers.
    pub fn has_datablock(&mut self, inode_table: &InodeTable) -> (r: bool)
        requires
            old(self).inode.inumber == old(self).inumber,
            in_table(inode_table@, old(self).inumber as int),
        ensures
            *final(self) == *old(self),
            r == (inode_at(inode_table@, old(self).inumber as int).data_block > 0),
    {
        if self.inode.data_block(inode_table) > 0 {
            true
        } else {
            false
        }
    }
}


impl InodeWriteIter {
    /// Writes the inode's block of the inode table, and its data pointers when they were read
    /// and fit on the disk.
    pub fn save_inode(&mut self, fs_meta_data: &mut MetaData, inode_table: &InodeTable, disk: &mut Disk) -> (r: bool)
        requires
            write_ready(*old(self), inode_table@, old(disk)@),
        ensures
            r,
            final(self).inumber == old(self).inumber,
            final(self).inode.inumber == old(self).inode.inumber,
            final(self).inode.data_manager is Some <==> old(self).inode.data_manager is Some,
            old(self).inode.data_manager is Some ==> final(self).inode.data_manager.unwrap()@ == old(self).inode.data_manager.unwrap()@,
            final(self).data_blocks == old(self).data_blocks,
            final(self).curr_data_block == old(self).curr_data_block,
            final(self).data_block_num == old(self).data_block_num,
            final(self).data_block_index == old(self).data_block_index,
            final(self).next_write_index == old(self).next_write_index,
            final(self).counted_index == old(self).counted_index,
            final(self).flushed == old(self).flushed,
            final(self).aligned_to_block == old(self).aligned_to_block,
            final(disk)@.len() == old(disk)@.len(),
            write_ready(*final(self), inode_table@, final(disk)@),
            inode_written(*old(self), inode_table@, old(disk)@, final(disk)@),
            final(fs_meta_data).superblock == old(fs_meta_data).superblock,
            final(fs_meta_data).root_free_list == old(fs_meta_data).root_free_list,
            final(disk).mount_count() == old(disk).mount_count(),
            final(disk).path_view() == old(disk).path_view(),
    {
        self.inode.save(inode_table, fs_meta_data, disk);
        let ghost d1 = disk@;
        self.inode.save_data_blocks(disk);
        proof {
            assert(agrees_off(d1, old(disk)@, table_block(inode_table@, old(self).inumber as int)));
            match old(self).inode.data_manager {
                Some(m) => {
                    if crate::data_ptr::can_save(m@, d1.len()) {
                        crate::data_ptr::lemma_saved_len(d1, m@);
                    }
                },
                None => {},
            }
        }
        true
    }

    /// Makes `blk_num` the block of the top level of the inode's data pointers, with no data
    /// blocks yet, and writes the inode; false when `blk_num` is not positive.
    pub fn set_data_block(&mut self, fs_meta_data: &mut MetaData, inode_table: &mut InodeTable, disk: &mut Disk, blk_num: i64) -> (r: bool)
        requires
            write_ready(*old(self), old(inode_table)@, old(disk)@),
        ensures
            r == (blk_num > 0),
            !r ==> *final(self) == *old(self) && final(inode_table)@ == old(inode_table)@ && final(disk)@ == old(disk)@
                && *final(fs_meta_data) == *old(fs_meta_data),
            r ==> table_sets_inode(old(inode_table)@, final(inode_table)@, old(self).inumber as int,
                Inode { data_block: blk_num as u32, ..inode_at(old(inode_table)@, old(self).inumber as int) }),
            r ==> final(self).inode.data_manager is Some && final(self).inode.data_manager.unwrap()@
                == (crate::data_ptr::DataPointerView { direct: Seq::empty(), indirect: Seq::empty(), root: blk_num as u32 }),
            r ==> inode_written(*final(self), final(inode_table)@, old(disk)@, final(disk)@),
            final(fs_meta_data).superblock == old(fs_meta_data).superblock,
            final(fs_meta_data).root_free_list == old(fs_meta_data).root_free_list,
            final(self).inumber == old(self).inumber,
            final(self).data_blocks == old(self).data_blocks,
            final(self).data_block_num == old(self).data_block_num,
            final(self).data_block_index == old(self).data_block_index,
            final(self).next_write_index == old(self).next_write_index,
            final(self).counted_index == old(self).counted_index,
            final(self).curr_data_block == old(self).curr_data_block,
            final(self).flushed == old(self).flushed,
            final(self).aligned_to_block == old(self).aligned_to_block,
            final(inode_table)@.len() == old(inode_table)@.len(),
            final(disk)@.len() == old(disk)@.len(),
            write_ready(*final(self), final(inode_table)@, final(disk)@),
            final(disk).mount_count() == old(disk).mount_count(),
            final(disk).path_view() == old(disk).path_view(),
    {
        if blk_num > 0 {
            self.inode.set_data_block(inode_table, blk_num as u32);
            proof {
                assert forall|k: int| 0 <= k < inode_table@.len() implies (#[trigger] inode_table@[k]).0 < disk@.len() by {
                    assert(inode_table@[k].0 == old(inode_table)@[k].0);
                }
            }
            self.save_inode(fs_meta_data, inode_table, disk);
            true
        } else {
            false
        }
    }

    /// Writes the current block to the disk and counts its bytes in the file size, unless it
    /// was written already; a full block makes the position the start of the next one. False
    /// when there is no current block or the inode has no data block.
    pub fn flush(&mut self, fs_meta_data: &mut MetaData, inode_table: &mut InodeTable, disk: &mut Disk) -> (r: bool)
        requires
            write_ready(*old(self), old(inode_table)@, old(disk)@),
        ensures
            write_ready(*final(self), final(inode_table)@, final(disk)@),
            final(self).inumber == old(self).inumber,
            final(self).inode.inumber == old(self).inode.inumber,
            final(self).inode.data_manager is Some,
            old(self).inode.data_manager is Some ==> final(self).inode.data_manager.unwrap()@ == old(self).inode.data_manager.unwrap()@,
            old(self).inode.data_manager is None ==> final(self).inode.data_manager.unwrap()@
                == loaded_pointers(old(disk)@, inode_at(old(inode_table)@, old(self).inumber as int)),
            final(self).data_blocks == old(self).data_blocks,
            final(self).data_block_num == old(self).data_block_num,
            final(self).data_block_index == old(self).data_block_index,
            final(self).curr_data_block == old(self).curr_data_block,
            final(self).aligned_to_block == old(self).aligned_to_block,
            r == (old(self).data_block_num > 0 && final(self).inode.data_manager.unwrap()@.direct.len() > 0),
            r ==> final(self).flushed,
            r ==> final(self).next_write_index == if old(self).next_write_index == BLOCK_SIZE { 0 } else { old(self).next_write_index },
            r ==> final(self).counted_index == final(self).next_write_index,
            !r ==> final(self).flushed == old(self).flushed && final(self).next_write_index == old(self).next_write_index
                && final(self).counted_index == old(self).counted_index,
            !r ==> final(disk)@ == old(disk)@ && final(inode_table)@ == old(inode_table)@,
            ({
                let x = inode_at(old(inode_table)@, old(self).inumber as int);
                let writes = !old(self).aligned_to_block && !old(self).flushed;
                let added = old(self).next_write_index - old(self).counted_index;
                let grows = writes && x.size + added <= u32::MAX;
                let d1 = if writes {
                    with_block(old(disk)@, old(self).data_block_num, old(self).curr_data_block@)
                } else {
                    old(disk)@
                };
                &&& r && grows ==> table_sets_inode(old(inode_table)@, final(inode_table)@, old(self).inumber as int,
                    Inode { size: (x.size + added) as u32, ..x })
                &&& r && !grows ==> final(inode_table)@ == old(inode_table)@
                &&& r ==> inode_written(*final(self), final(inode_table)@, d1, final(disk)@)
            }),
            final(fs_meta_data).superblock == old(fs_meta_data).superblock,
            final(fs_meta_data).root_free_list == old(fs_meta_data).root_free_list,
            final(inode_table)@.len() == old(inode_table)@.len(),
            final(disk)@.len() == old(disk)@.len(),
            final(disk).mount_count() == old(disk).mount_count(),
            final(disk).path_view() == old(disk).path_view(),
    {
        let count = self.inode.data_block_count(inode_table, disk);
        if self.data_block_num > 0 && count > 0 {
            if !self.aligned_to_block && !self.flushed {
                if (self.data_block_num as usize) < disk.size() {
                    disk.write(self.data_block_num as usize, self.curr_data_block.data_as_ref());
                }
                let size = self.inode.size(inode_table);
                let added = self.next_write_index - self.counted_index;
                if added as u64 <= (u32::MAX - size) as u64 {
                    self.inode.incr_size(inode_table, added);
                    proof {
                        assert forall|k: int| 0 <= k < inode_table@.len() implies (#[trigger] inode_table@[k]).0 < disk@.len() by {
                            assert(inode_table@[k].0 == old(inode_table)@[k].0);
                        }
                    }
                }
            }
            if self.next_write_index == BLOCK_SIZE {
                self.next_write_index = 0;
            }
            self.counted_index = self.next_write_index;
            self.flushed = true;
            self.save_inode(fs_meta_data, inode_table, disk);
            true
        } else {
            false
        }
    }

    /// Records the block `new_blk` in the inode's data pointers and makes it the current,
    /// empty block; returns what `InodeProxy::add_data_block` returns, or -1 when `new_blk`
    /// is not positive or the inode counts the most data blocks it can.
    pub fn add_data_blk(&mut self, inode_table: &mut InodeTable, new_blk: i64) -> (r: i64)
        requires
            old(self).inode.inumber == old(self).inumber,
            in_table(old(inode_table)@, old(self).inumber as int),
        ensures
            final(self).inumber == old(self).inumber,
            final(self).inode.inumber == old(self).inumber,
            final(inode_table)@.len() == old(inode_table)@.len(),
            forall|k: int| 0 <= k < old(inode_table)@.len() ==> (#[trigger] final(inode_table)@[k]).0 == old(inode_table)@[k].0,
            (new_blk <= 0 || inode_at(old(inode_table)@, old(self).inumber as int).total_data_blocks == u32::MAX) ==> {
                &&& r == -1
                &&& *final(self) == *old(self)
                &&& final(inode_table)@ == old(inode_table)@
            },
            new_blk > 0 && inode_at(old(inode_table)@, old(self).inumber as int).total_data_blocks < u32::MAX ==> {
                let x = inode_at(old(inode_table)@, old(self).inumber as int);
                let v0 = match old(self).inode.data_manager {
                    Some(m) => m@,
                    None => crate::data_ptr::DataPointerView { direct: Seq::empty(), indirect: Seq::empty(), root: x.data_block },
                };
                &&& r >= 0
                &&& final(self).inode.data_manager is Some
                &&& adds_block(v0, new_blk as u32, final(self).inode.data_manager.unwrap()@, r)
                &&& final(self).data_blocks@ == old(self).data_blocks@.push(new_blk as u32)
                &&& final(self).data_block_num == new_blk as u32
                &&& final(self).next_write_index == 0
                &&& final(self).counted_index == 0
                &&& final(self).curr_data_block@ == zero_block()
                &&& final(self).data_block_index == old(self).data_block_index
                &&& final(self).flushed == old(self).flushed
                &&& final(self).aligned_to_block == old(self).aligned_to_block
                &&& table_sets_inode(old(inode_table)@, final(inode_table)@, old(self).inumber as int,
                    Inode {
                        blk_pointer_level: crate::inode::stored_level(final(self).inode.data_manager.unwrap()@),
                        total_data_blocks: if r == 0 { (x.total_data_blocks + 1) as u32 } else { x.total_data_blocks },
                        ..x
                    })
            },
    {
        if new_blk > 0 {
            if self.inode.total_data_blocks(inode_table) == u32::MAX {
                return -1;
            }
            self.data_blocks.push(new_blk as u32);
            let r = self.inode.add_data_block(inode_table, new_blk);
            self.data_block_num = new_blk as u32;
            self.next_write_index = 0;
            self.counted_index = 0;
            self.curr_data_block = Block::new();
            return r;
        } else {
            return -1;
        }
    }

    /// Writes `byte` at the position: into the current block while it has room; when it is full,
    /// flushes it and goes on in the next data block of the file. Returns (true, 1) when it
    /// wrote, else (false, -1): the inode has no data block, flushing failed, or there is no
    /// next data block (the position then moves past the last one).
    pub fn write_byte(&mut self, fs_meta_data: &mut MetaData, inode_table: &mut InodeTable, disk: &mut Disk, byte: u8) -> (r: (bool, i64))
        requires
            write_ready(*old(self), old(inode_table)@, old(disk)@),
        ensures
            write_ready(*final(self), final(inode_table)@, final(disk)@),
            r == (true, 1i64) || r == (false, -1i64),
            final(self).inumber == old(self).inumber,
            final(self).inode.inumber == old(self).inode.inumber,
            final(self).inode.data_manager is Some,
            old(self).inode.data_manager is Some ==> final(self).inode.data_manager.unwrap()@ == old(self).inode.data_manager.unwrap()@,
            old(self).inode.data_manager is None ==> final(self).inode.data_manager.unwrap()@
                == loaded_pointers(old(disk)@, inode_at(old(inode_table)@, old(self).inumber as int)),
            final(self).data_blocks == old(self).data_blocks,
            ({
                let blocks = final(self).inode.data_manager.unwrap()@.direct;
                let full = old(self).next_write_index >= BLOCK_SIZE;
                let x = inode_at(old(inode_table)@, old(self).inumber as int);
                let writes = !old(self).aligned_to_block && !old(self).flushed;
                let grows = writes && x.size + (old(self).next_write_index - old(self).counted_index) <= u32::MAX;
                let d1 = if writes {
                    with_block(old(disk)@, old(self).data_block_num, old(self).curr_data_block@)
                } else {
                    old(disk)@
                };
                &&& blocks.len() == 0 || (full && old(self).data_block_num == 0) ==> {
                    &&& r == (false, -1i64)
                    &&& final(inode_table)@ == old(inode_table)@
                    &&& final(disk)@ == old(disk)@
                    &&& final(self).curr_data_block == old(self).curr_data_block
                    &&& final(self).next_write_index == old(self).next_write_index
                    &&& final(self).counted_index == old(self).counted_index
                    &&& final(self).data_block_num == old(self).data_block_num
                    &&& final(self).data_block_index == old(self).data_block_index
                    &&& final(self).flushed == old(self).flushed
                    &&& final(self).aligned_to_block == old(self).aligned_to_block
                }
                &&& blocks.len() > 0 && !full ==> {
                    &&& r == (true, 1i64)
                    &&& final(self).curr_data_block@ == old(self).curr_data_block@.update(old(self).next_write_index as int, byte)
                    &&& final(self).next_write_index == old(self).next_write_index + 1
                    &&& final(self).counted_index == old(self).counted_index
                    &&& final(self).data_block_num == old(self).data_block_num
                    &&& final(self).data_block_index == old(self).data_block_index
                    &&& !final(self).flushed
                    &&& !final(self).aligned_to_block
                    &&& final(inode_table)@ == old(inode_table)@
                    &&& final(disk)@ == old(disk)@
                }
                &&& blocks.len() > 0 && full && old(self).data_block_num > 0 ==> {
                    &&& grows ==> table_sets_inode(old(inode_table)@, final(inode_table)@, old(self).inumber as int,
                        Inode { size: (x.size + (old(self).next_write_index - old(self).counted_index)) as u32, ..x })
                    &&& !grows ==> final(inode_table)@ == old(inode_table)@
                    &&& inode_written(*final(self), final(inode_table)@, d1, final(disk)@)
                    &&& if old(self).data_block_index < blocks.len() - 1 {
                        &&& r == (true, 1i64)
                        &&& final(self).data_block_index == old(self).data_block_index + 1
                        &&& final(self).data_block_num == blocks[old(self).data_block_index + 1]
                        &&& final(self).curr_data_block@ == disk_block(final(disk)@, final(self).data_block_num as int).update(0, byte)
                        &&& final(self).curr_data_block@[0] == byte
                        &&& final(self).next_write_index == 1
                        &&& final(self).counted_index == 0
                        &&& !final(self).flushed
                        &&& !final(self).aligned_to_block
                    } else {
                        &&& r == (false, -1i64)
                        &&& final(self).data_block_index == if old(self).data_block_index < usize::MAX {
                            old(self).data_block_index + 1
                        } else {
                            old(self).data_block_index as int
                        }
                        &&& final(self).data_block_num == old(self).data_block_num
                        &&& final(self).curr_data_block == old(self).curr_data_block
                        &&& final(self).next_write_index == 0
                        &&& final(self).counted_index == 0
                        &&& final(self).flushed
                        &&& final(self).aligned_to_block == old(self).aligned_to_block
                    }
                }
            }),
            final(fs_meta_data).superblock == old(fs_meta_data).superblock,
            final(fs_meta_data).root_free_list == old(fs_meta_data).root_free_list,
            final(inode_table)@.len() == old(inode_table)@.len(),
            final(disk)@.len() == old(disk)@.len(),
            final(disk).mount_count() == old(disk).mount_count(),
            final(disk).path_view() == old(disk).path_view(),
    {
        let count = self.inode.data_block_count(inode_table, disk);
        if count == 0 {
            return (false, -1);
        }
        if self.next_write_index < BLOCK_SIZE {
            self.curr_data_block.data[self.next_write_index] = byte;
            self.next_write_index += 1;
            self.aligned_to_block = false;
            self.flushed = false;
            (true, 1)
        } else {
            let ghost w0 = *self;
            let ghost d1 = if !w0.aligned_to_block && !w0.flushed {
                with_block(disk@, w0.data_block_num, w0.curr_data_block@)
            } else {
                disk@
            };
            if !self.flush(fs_meta_data, inode_table, disk) {
                return (false, -1);
            }
            let ghost w1 = *self;
            if self.data_block_index < count - 1 {
                self.data_block_index += 1;
                self.data_block_num = self.inode.data_block_at(self.data_block_index);
                let mut data_block = Block::new();
                if (self.data_block_num as usize) < disk.size() {
                    disk.read(self.data_block_num as usize, data_block.data_as_mut());
                }
                self.curr_data_block = data_block;
                self.curr_data_block.data[self.next_write_index] = byte;
                self.next_write_index += 1;
                self.aligned_to_block = false;
                self.flushed = false;
                proof {
                    lemma_inode_written_same(w1, *self, inode_table@, d1, disk@);
                }
                return (true, 1);
            } else {
                if self.data_block_index < usize::MAX {
                    self.data_block_index += 1;
                }
                (false, -1)
            }
        }
    }

    /// Access to the inode.
    pub fn get_inode(&mut self) -> (r: &mut InodeProxy)
        ensures
            *r == old(self).inode,
            final(self).inode == *final(r),
            final(self).inumber == old(self).inumber,
            final(self).data_blocks == old(self).data_blocks,
            final(self).curr_data_block == old(self).curr_data_block,
            final(self).data_block_num == old(self).data_block_num,
            final(self).data_block_index == old(self).data_block_index,
            final(self).next_write_index == old(self).next_write_index,
            final(self).counted_index == old(self).counted_index,
            final(self).flushed == old(self).flushed,
            final(self).aligned_to_block == old(self).aligned_to_block,
    {
        &mut self.inode
    }

    /// The block number and a block holding the inode block that inode `i` lives in.
    pub fn get_inode_block(&self, inode_table: &InodeTable, i: usize) -> (r: (u32, Block))
        requires
            1 <= i,
            table_index(i as int) < inode_table@.len(),
        ensures
            r.0 == inode_table@[table_index(i as int)].0,
            crate::block::encodes_inode_block(r.1@, inode_table@[table_index(i as int)].1),
    {
        get_inode_block(inode_table, i)
    }
}

/// Copies the first `BLOCK_SIZE` bytes of `v` into a block buffer.
fn first_block(v: &Vec<u8>) -> (r: [u8; BLOCK_SIZE])
    requires
        v@.len() >= BLOCK_SIZE,
    ensures
        r@ == v@.take(BLOCK_SIZE as int),
{
    let mut r = [0u8; BLOCK_SIZE];
    let mut k: usize = 0;
    while k < BLOCK_SIZE
        invariant
            k <= BLOCK_SIZE,
            v@.len() >= BLOCK_SIZE,
            r@.len() == BLOCK_SIZE,
            forall|j: int| 0 <= j < k ==> #[trigger] r@[j] == v@[j],
        decreases BLOCK_SIZE - k,
    {
        r[k] = v[k];
        k += 1;
    }
    assert(r@ =~= v@.take(BLOCK_SIZE as int));
    r
}

/// The data blocks that `write_byte` goes through from the iterator `it`: those its inode holds,
/// or the ones the inode table `t` and the disk `d` give when it has not loaded them yet.
pub open spec fn write_blocks(it: InodeWriteIter, t: Seq<(u32, crate::block::InodeBlock)>, d: Seq<Seq<u8>>) -> Seq<u32> {
    match it.inode.data_manager {
        Some(m) => m@.direct,
        None => loaded_pointers(d, inode_at(t, it.inumber as int)).direct,
    }
}

impl InodeWriteIter {
    /// When the position is inside a block that already has bytes of the file, fills the rest
    /// of that block with the first bytes of `block_data` and writes it to the disk, so that the
    /// next write starts a block. Returns whether the iterator is aligned, and how many bytes it
    /// wrote.
    pub fn align_to_block(&mut self, fs_meta_data: &mut MetaData, inode_table: &mut InodeTable, disk: &mut Disk, block_data: &Vec<u8>) -> (r: (bool, i64))
        requires
            write_ready(*old(self), old(inode_table)@, old(disk)@),
            block_data@.len() <= i64::MAX,
        ensures
            write_ready(*final(self), final(inode_table)@, final(disk)@),
            final(self).inumber == old(self).inumber,
            old(self).aligned_to_block ==> r == (true, 0i64) && *final(self) == *old(self)
                && final(inode_table)@ == old(inode_table)@ && final(disk)@ == old(disk)@,
            !old(self).aligned_to_block && block_data@.len() < BLOCK_SIZE - old(self).next_write_index ==>
                r == (false, -1i64) && *final(self) == *old(self) && final(inode_table)@ == old(inode_table)@
                && final(disk)@ == old(disk)@,
            !old(self).aligned_to_block && block_data@.len() >= BLOCK_SIZE - old(self).next_write_index
                && (inode_at(old(inode_table)@, old(self).inumber as int).size == 0 || old(self).next_write_index == 0
                    || old(self).next_write_index == BLOCK_SIZE) ==>
                r == (true, 0i64) && *final(self) == (InodeWriteIter { aligned_to_block: true, ..*old(self) })
                && final(inode_table)@ == old(inode_table)@ && final(disk)@ == old(disk)@,
            !old(self).aligned_to_block && block_data@.len() >= BLOCK_SIZE - old(self).next_write_index
                && !(inode_at(old(inode_table)@, old(self).inumber as int).size == 0 || old(self).next_write_index == 0
                    || old(self).next_write_index == BLOCK_SIZE) ==> ({
                let w = old(self).next_write_index as int;
                let n = BLOCK_SIZE - w;
                let x = inode_at(old(inode_table)@, old(self).inumber as int);
                let blocks = write_blocks(*old(self), old(inode_table)@, old(disk)@);
                let added = BLOCK_SIZE - old(self).counted_index;
                &&& r == (true, if blocks.len() == 0 { 0i64 } else { n as i64 })
                &&& final(self).aligned_to_block
                &&& final(self).data_block_num == old(self).data_block_num
                &&& final(self).data_block_index == old(self).data_block_index
                &&& blocks.len() == 0 ==> final(inode_table)@ == old(inode_table)@ && final(disk)@ == old(disk)@
                &&& blocks.len() > 0 ==> final(self).curr_data_block@ == old(self).curr_data_block@.take(w) + block_data@.take(n)
                &&& blocks.len() > 0 && old(self).data_block_num > 0 ==> {
                    &&& final(self).next_write_index == 0
                    &&& final(self).counted_index == 0
                    &&& final(self).flushed
                    &&& x.size + added <= u32::MAX ==> table_sets_inode(old(inode_table)@, final(inode_table)@,
                        old(self).inumber as int, Inode { size: (x.size + added) as u32, ..x })
                    &&& x.size + added > u32::MAX ==> final(inode_table)@ == old(inode_table)@
                    &&& inode_written(*final(self), final(inode_table)@,
                        with_block(old(disk)@, old(self).data_block_num, final(self).curr_data_block@), final(disk)@)
                }
            }),
            final(inode_table)@.len() == old(inode_table)@.len(),
            final(disk)@.len() == old(disk)@.len(),
            final(disk).mount_count() == old(disk).mount_count(),
            final(disk).path_view() == old(disk).path_view(),
    {
        if self.aligned_to_block {
            return (true, 0);
        }
        let n = BLOCK_SIZE - self.next_write_index;
        if block_data.len() < n {
            return (false, -1);
        }
        let size = self.inode.size(inode_table);
        if size == 0 || self.next_write_index == 0 || self.next_write_index == BLOCK_SIZE {
            self.aligned_to_block = true;
            return (true, 0);
        }
        let ghost w0 = *self;
        let ghost blocks0 = write_blocks(*self, inode_table@, disk@);
        let ghost t0 = inode_table@;
        let ghost d0 = disk@;
        let w = self.next_write_index;
        let mut m: usize = 0;
        while m < n
            invariant_except_break
                m > 0 ==> !self.flushed && !self.aligned_to_block,
            invariant
                write_ready(*self, inode_table@, disk@),
                self.inumber == old(self).inumber,
                self.inode.inumber == w0.inode.inumber,
                m <= n,
                n == BLOCK_SIZE - w,
                w == w0.next_write_index,
                0 < w < BLOCK_SIZE,
                block_data@.len() >= n,
                write_blocks(*self, inode_table@, disk@) == blocks0,
                blocks0 == write_blocks(w0, t0, d0),
                blocks0.len() == 0 ==> m == 0,
                inode_table@ == t0,
                disk@ == d0,
                self.next_write_index == w + m,
                self.counted_index == w0.counted_index,
                self.data_block_num == w0.data_block_num,
                self.data_block_index == w0.data_block_index,
                self.curr_data_block@ == w0.curr_data_block@.take(w as int) + block_data@.take(m as int)
                    + w0.curr_data_block@.skip(w + m),
                disk.mount_count() == old(disk).mount_count(),
                disk.path_view() == old(disk).path_view(),
            ensures
                blocks0.len() > 0 ==> m == n && !self.flushed && !self.aligned_to_block,
                blocks0.len() == 0 ==> m == 0,
            decreases n - m,
        {
            let ghost wa = *self;
            let (success, _) = self.write_byte(fs_meta_data, inode_table, disk, block_data[m]);
            if !success {
                break;
            }
            m += 1;
            proof {
                assert(self.curr_data_block@ =~= w0.curr_data_block@.take(w as int) + block_data@.take(m as int)
                    + w0.curr_data_block@.skip(w + m));
            }
        }
        proof {
            if blocks0.len() > 0 {
                assert(self.curr_data_block@ =~= w0.curr_data_block@.take(w as int) + block_data@.take(n as int));
            }
        }
        self.flush(fs_meta_data, inode_table, disk);
        let ghost wc = *self;
        self.aligned_to_block = true;
        proof {
            if blocks0.len() > 0 && w0.data_block_num > 0 {
                lemma_inode_written_same(wc, *self, inode_table@, with_block(d0, w0.data_block_num, self.curr_data_block@), disk@);
            }
        }
        (true, m as i64)
    }

    /// With the position at the start of a block, records `block_num` as a new data block and
    /// writes the first `BLOCK_SIZE` bytes of `block_data` to it, counting them in the file
    /// size. Returns 0 when it did, what recording the block returned when that was not 0, or -1
    /// when `block_num` is negative, the iterator is not aligned or `block_data` is short.
    pub fn write_block(&mut self, inode_table: &mut InodeTable, disk: &mut Disk, block_num: i64, block_data: &Vec<u8>) -> (r: i64)
        requires
            write_ready(*old(self), old(inode_table)@, old(disk)@),
        ensures
            write_ready(*final(self), final(inode_table)@, final(disk)@),
            final(self).inumber == old(self).inumber,
            (block_num < 0 || !old(self).aligned_to_block || block_data@.len() < BLOCK_SIZE) ==>
                r == -1 && *final(self) == *old(self) && final(inode_table)@ == old(inode_table)@ && final(disk)@ == old(disk)@,
            r == 0 ==> {
                &&& 0 < block_num < old(disk)@.len()
                &&& final(disk)@ == old(disk)@.update(block_num as int, block_data@.take(BLOCK_SIZE as int))
                &&& final(self).aligned_to_block
                &&& final(self).data_block_num == block_num as u32
                &&& inode_at(final(inode_table)@, old(self).inumber as int).size == inode_at(old(inode_table)@, old(self).inumber as int).size + BLOCK_SIZE
            },
            r != 0 ==> final(disk)@ == old(disk)@,
            ({
                let x = inode_at(old(inode_table)@, old(self).inumber as int);
                let ok = block_num >= 0 && old(self).aligned_to_block && block_data@.len() >= BLOCK_SIZE;
                let fits = block_num < old(disk)@.len() && x.size + BLOCK_SIZE <= u32::MAX;
                let v0 = match old(self).inode.data_manager {
                    Some(m) => m@,
                    None => crate::data_ptr::DataPointerView { direct: Seq::empty(), indirect: Seq::empty(), root: x.data_block },
                };
                &&& ok && (!fits || block_num == 0 || x.total_data_blocks == u32::MAX) ==>
                    r == -1 && *final(self) == *old(self) && final(inode_table)@ == old(inode_table)@
                &&& ok && fits && block_num > 0 && x.total_data_blocks < u32::MAX ==> {
                    &&& r >= 0
                    &&& adds_block(v0, block_num as u32, final(self).inode.data_manager.unwrap()@, r)
                    &&& final(self).data_blocks@ == old(self).data_blocks@.push(block_num as u32)
                }
            }),
            final(inode_table)@.len() == old(inode_table)@.len(),
            final(disk)@.len() == old(disk)@.len(),
            final(disk).mount_count() == old(disk).mount_count(),
            final(disk).path_view() == old(disk).path_view(),
    {
        if block_num < 0 || !self.aligned_to_block {
            return -1;
        }
        if block_data.len() < BLOCK_SIZE {
            return -1;
        }
        if block_num as u64 >= disk.size() as u64 {
            return -1;
        }
        let size = self.inode.size(inode_table);
        if size > u32::MAX - BLOCK_SIZE as u32 {
            return -1;
        }
        let r = self.add_data_blk(inode_table, block_num);
        if r != 0 {
            proof {
                assert forall|k: int| 0 <= k < inode_table@.len() implies (#[trigger] inode_table@[k]).0 < disk@.len() by {
                    assert(inode_table@[k].0 == old(inode_table)@[k].0);
                }
            }
            return r;
        }
        let data = first_block(block_data);
        disk.write(block_num as usize, &data);
        self.aligned_to_block = true;
        self.inode.incr_size(inode_table, BLOCK_SIZE);
        proof {
            assert forall|k: int| 0 <= k < inode_table@.len() implies (#[trigger] inode_table@[k]).0 < disk@.len() by {
                assert(inode_table@[k].0 == old(inode_table)@[k].0);
            }
        }
        0
    }
}
} // verus!
