use vstd::prelude::*;
use crate::block::{Block, InodeBlock, MetaData, Superblock, law_fresh_pool_in_order, allocates, allocation, lemma_allocation, blocks_left, encodes_inode_block, exhausted, handed_out, lemma_pool_shift, lemma_take_next, lemma_took_same, pool_after, pool_of, runs_out_at, spec_superblock, took};
use crate::codec::{le_u32, zero_block};
use crate::constants::{BLOCK_SIZE, BUFFER_SIZE, INODES_FREE_LIST, INODES_IN_BLOCK, INODES_PER_BLOCK, INODES_ROOT_BLOCK, MAGIC_NUMBER, POINTERS_PER_BLOCK, ROOT_FREE_LIST};
use crate::data_ptr::{DataPointerView, adds_block, can_save, chunks, law_save_then_reload, lemma_chunks_one, lemma_level_list_same, lemma_log_ppb_one, lemma_pointer_block, lemma_zero_prefix_nonzero, level_chunks, level_list, level_with_room, log_ppb, pointer_block, pow_ppb, reloadable, root_list, saved};
use crate::disk::Disk;
use crate::i_list::{InodeList, InodeListIter, walk_after, walk_item};
use crate::inode::{Inode, InodeProxy, has_inode_slot, in_table, inode_at, loaded_pointers, pointer_levels, stored_level, table_in_disk};
use crate::write_iter::{InodeWriteIter, inode_written, lemma_written_other, table_block, with_block, write_ready};
use crate::block::BlockManager;
use crate::read_iter::{InodeReadIter, can_read_at, file_blocks, file_byte, readable};
use crate::utility::{InodeTable, MetaPart, fetch_block, holds_superblock, save_meta_data, stores_meta, table_index, table_sets_inode};

verus! {

/// The superblock that `format` writes on a disk of `blocks` blocks.
pub open spec fn formatted_superblock(blocks: nat) -> Superblock {
    Superblock {
        magic_number: MAGIC_NUMBER as u32,
        blocks: blocks as u32,
        current_block_index: 4,
        free_blocks: 0,
        free_inodes: 0,
        inodes: 0,
    }
}

/// Link `k` of the chain of inode blocks that starts at the root inode block with bytes `rb`:
/// the block number and the bytes of that inode block.
pub open spec fn chain_link(d: Seq<Seq<u8>>, rb: Seq<u8>, k: nat) -> (u32, Seq<u8>)
    decreases k,
{
    if k == 0 {
        (INODES_ROOT_BLOCK as u32, rb)
    } else {
        let p = chain_link(d, rb, (k - 1) as nat);
        let nx = le_u32(p.1, 4064);
        (nx, d[nx as int])
    }
}

/// The inode block of link `k` names a next block that lies on the disk.
pub open spec fn chain_continues(d: Seq<Seq<u8>>, rb: Seq<u8>, k: nat) -> bool {
    let nx = le_u32(chain_link(d, rb, k).1, 4064);
    nx != 0 && nx < d.len()
}

/// `t` is the inode table that the chain of inode blocks from the root bytes `rb` gives on
/// the disk `d`: one entry per link, up to the first link with no next block on the disk,
/// or up to `d.len() + 1` links.
pub open spec fn is_chain_table(d: Seq<Seq<u8>>, rb: Seq<u8>, t: Seq<(u32, InodeBlock)>) -> bool {
    &&& t.len() >= 1
    &&& forall|k: int| 0 <= k < t.len() ==> (#[trigger] t[k]).0 == chain_link(d, rb, k as nat).0
        && encodes_inode_block(chain_link(d, rb, k as nat).1, t[k].1)
    &&& forall|k: int| 0 <= k < t.len() - 1 ==> #[trigger] chain_continues(d, rb, k as nat)
    &&& !chain_continues(d, rb, (t.len() - 1) as nat) || t.len() > d.len()
}

/// The file system: its metadata, its disk and its inode table, once mounted.
pub struct FileSystem {
    pub meta_data: Option<MetaData>,
    pub disk: Option<Disk>,
    pub inode_table: Option<InodeTable>,
}

impl FileSystem {
    /// The parts of the file system fit together: a mounted disk has the metadata blocks and
    /// holds every block of the inode table.
    pub open spec fn wf(&self) -> bool {
        match (self.meta_data, self.disk, self.inode_table) {
            (Some(m), Some(d), Some(t)) => INODES_FREE_LIST < d@.len() && table_in_disk(t@, d@.len()),
            _ => true,
        }
    }

    /// The file system is mounted.
    pub open spec fn is_mounted(&self) -> bool {
        self.meta_data is Some && self.disk is Some && self.inode_table is Some
    }

    /// A file system that is not mounted.
    pub fn new() -> (r: FileSystem)
        ensures
            r.meta_data is None,
            r.disk is None,
            r.inode_table is None,
            r.wf(),
    {
        FileSystem { meta_data: None, disk: None, inode_table: None }
    }

    /// Reads the metadata blocks: the superblock from block 0 and the blocks 1, 2 and 3.
    pub fn read_meta_data(disk: &mut Disk) -> (r: MetaData)
        requires
            INODES_FREE_LIST < old(disk)@.len(),
        ensures
            r.superblock == spec_superblock(old(disk)@[0]),
            r.inodes_root_block@ == old(disk)@[INODES_ROOT_BLOCK as int],
            r.root_free_list@ == old(disk)@[ROOT_FREE_LIST as int],
            r.inodes_free_list@ == old(disk)@[INODES_FREE_LIST as int],
            final(disk)@ == old(disk)@,
            final(disk).mount_count() == old(disk).mount_count(),
            final(disk).path_view() == old(disk).path_view(),
    {
        let block = fetch_block(disk, 0);
        let superblock = block.superblock();
        let irb = fetch_block(disk, INODES_ROOT_BLOCK);
        let rfl = fetch_block(disk, ROOT_FREE_LIST);
        let ifl = fetch_block(disk, INODES_FREE_LIST);
        MetaData { superblock, inodes_root_block: irb, root_free_list: rfl, inodes_free_list: ifl }
    }

    /// Formats the disk: block 0 gets the superblock of an empty file system of `disk.size()`
    /// blocks whose next fresh block is 4, and the blocks 1, 2 and 3 are zeroed.
    pub fn format(disk: &mut Disk) -> (r: bool)
        requires
            INODES_FREE_LIST < old(disk)@.len(),
        ensures
            r,
            final(disk)@.len() == old(disk)@.len(),
            holds_superblock(final(disk)@[0], formatted_superblock(old(disk)@.len())),
            final(disk)@[INODES_ROOT_BLOCK as int] == zero_block(),
            final(disk)@[ROOT_FREE_LIST as int] == zero_block(),
            final(disk)@[INODES_FREE_LIST as int] == zero_block(),
            forall|k: int| INODES_FREE_LIST < k < old(disk)@.len() ==> #[trigger] final(disk)@[k] == old(disk)@[k],
            final(disk).mount_count() == old(disk).mount_count(),
            final(disk).path_view() == old(disk).path_view(),
    {
        let mut superblock = Block::new();
        superblock.set_superblock(Superblock {
            magic_number: MAGIC_NUMBER as u32,
            blocks: disk.size() as u32,
            current_block_index: 4,
            free_blocks: 0,
            free_inodes: 0,
            inodes: 0,
        });
        disk.write(0, superblock.data_as_ref());
        let block = Block::new();
        disk.write(INODES_ROOT_BLOCK, block.data_as_ref());
        disk.write(ROOT_FREE_LIST, block.data_as_ref());
        disk.write(INODES_FREE_LIST, block.data_as_ref());
        true
    }

    /// The inode table: the root inode block, then each inode block that the previous one names
    /// as its next block, until one names none (or names a block past the end of the disk, or
    /// the table has more entries than the disk has blocks).
    pub fn generate_inode_table(meta_data: &MetaData, disk: &mut Disk) -> (r: InodeTable)
        requires
            INODES_ROOT_BLOCK < old(disk)@.len(),
        ensures
            is_chain_table(old(disk)@, meta_data.inodes_root_block@, r@),
            table_in_disk(r@, old(disk)@.len()),
            final(disk)@ == old(disk)@,
            final(disk).mount_count() == old(disk).mount_count(),
            final(disk).path_view() == old(disk).path_view(),
    {
        let ghost d = disk@;
        let ghost rb = meta_data.inodes_root_block@;
        let mut inode_table: InodeTable = Vec::new();
        let mut inode_blk = meta_data.inodes_root_block.inode_block();
        let mut block_num: usize = INODES_ROOT_BLOCK;
        let ghost mut link_bytes = rb;
        loop
            invariant_except_break
                inode_table@.len() <= d.len(),
                block_num < d.len(),
                chain_link(d, rb, inode_table@.len() as nat) == (block_num as u32, link_bytes),
                encodes_inode_block(link_bytes, inode_blk),
                forall|k: int| 0 <= k < inode_table@.len() ==> (#[trigger] inode_table@[k]).0 == chain_link(d, rb, k as nat).0
                    && encodes_inode_block(chain_link(d, rb, k as nat).1, inode_table@[k].1),
                forall|k: int| 0 <= k < inode_table@.len() ==> #[trigger] chain_continues(d, rb, k as nat),
            invariant
                disk@ == d,
                forall|k: int| 0 <= k < inode_table@.len() ==> (#[trigger] inode_table@[k]).0 < d.len(),
                disk.mount_count() == old(disk).mount_count(),
                disk.path_view() == old(disk).path_view(),
            ensures
                is_chain_table(d, rb, inode_table@),
            decreases d.len() + 1 - inode_table@.len(),
        {
            inode_table.push((block_num as u32, inode_blk));
            let next = inode_blk.next_block;
            proof {
                assert(next == le_u32(link_bytes, 4064));
            }
            if next == 0 || next as usize >= disk.size() || inode_table.len() > disk.size() {
                break;
            }
            block_num = next as usize;
            let block = fetch_block(disk, block_num);
            inode_blk = block.inode_block();
            proof {
                link_bytes = block@;
            }
        }
        inode_table
    }

    /// Mounts the disk when its superblock holds the magic number: reads the metadata and the
    /// inode table, and keeps a copy of the disk.
    pub fn mount(&mut self, disk: &mut Disk) -> (r: bool)
        requires
            INODES_FREE_LIST < old(disk)@.len(),
            old(self).wf(),
        ensures
            final(self).wf(),
            r == (spec_superblock(old(disk)@[0]).magic_number == MAGIC_NUMBER as u32),
            !r ==> *final(self) == *old(self),
            r ==> {
                let m = final(self).meta_data.unwrap();
                &&& final(self).is_mounted()
                &&& m.superblock == spec_superblock(old(disk)@[0])
                &&& m.inodes_root_block@ == old(disk)@[INODES_ROOT_BLOCK as int]
                &&& m.root_free_list@ == old(disk)@[ROOT_FREE_LIST as int]
                &&& m.inodes_free_list@ == old(disk)@[INODES_FREE_LIST as int]
                &&& final(self).disk.unwrap()@ == old(disk)@
                &&& is_chain_table(old(disk)@, old(disk)@[INODES_ROOT_BLOCK as int], final(self).inode_table.unwrap()@)
            },
            final(disk)@ == old(disk)@,
            final(disk).mount_count() == old(disk).mount_count(),
            final(disk).path_view() == old(disk).path_view(),
    {
        let meta_data = Self::read_meta_data(disk);
        if meta_data.superblock.magic_number != MAGIC_NUMBER as u32 {
            return false;
        }
        let mut disc = disk.clone();
        let inode_table = Self::generate_inode_table(&meta_data, &mut disc);
        self.meta_data = Some(meta_data);
        self.disk = Some(disc);
        self.inode_table = Some(inode_table);
        true
    }

    /// A file system on the disk: mounted when the disk holds one, else the disk is formatted
    /// first and then mounted.
    pub fn from_disk(disk: &mut Disk) -> (r: FileSystem)
        requires
            INODES_FREE_LIST < old(disk)@.len(),
        ensures
            r.wf(),
            r.is_mounted(),
            spec_superblock(old(disk)@[0]).magic_number == MAGIC_NUMBER as u32 ==> final(disk)@ == old(disk)@,
            spec_superblock(old(disk)@[0]).magic_number != MAGIC_NUMBER as u32 ==> {
                &&& holds_superblock(final(disk)@[0], formatted_superblock(old(disk)@.len()))
                &&& final(disk)@[INODES_ROOT_BLOCK as int] == zero_block()
                &&& final(disk)@[ROOT_FREE_LIST as int] == zero_block()
                &&& final(disk)@[INODES_FREE_LIST as int] == zero_block()
                &&& forall|k: int| INODES_FREE_LIST < k < old(disk)@.len() ==> #[trigger] final(disk)@[k] == old(disk)@[k]
            },
            r.disk.unwrap()@ == final(disk)@,
            ({
                let m = r.meta_data.unwrap();
                let d = final(disk)@;
                &&& m.superblock == spec_superblock(d[0])
                &&& m.inodes_root_block@ == d[INODES_ROOT_BLOCK as int]
                &&& m.root_free_list@ == d[ROOT_FREE_LIST as int]
                &&& m.inodes_free_list@ == d[INODES_FREE_LIST as int]
                &&& is_chain_table(d, d[INODES_ROOT_BLOCK as int], r.inode_table.unwrap()@)
            }),
            final(disk)@.len() == old(disk)@.len(),
            final(disk).mount_count() == old(disk).mount_count(),
            final(disk).path_view() == old(disk).path_view(),
    {
        let mut fs = Self::new();
        let mounted = fs.mount(disk);
        if !mounted {
            let formatted = Self::format(disk);
            if formatted {
                proof {
                    assert(spec_superblock(disk@[0]).magic_number == MAGIC_NUMBER as u32);
                }
                fs.mount(disk);
            }
        }
        fs
    }

    /// Stores the `part` of the metadata on the disk; false when not mounted.
    pub fn save_meta_data(&mut self, part: MetaPart) -> (r: bool)
        requires
            old(self).wf(),
        ensures
            final(self).wf(),
            r == (old(self).meta_data is Some && old(self).disk is Some && old(self).inode_table is Some),
            final(self).meta_data == old(self).meta_data,
            final(self).inode_table == old(self).inode_table,
            final(self).disk is Some == old(self).disk is Some,
            r ==> stores_meta(old(self).disk.unwrap()@, final(self).disk.unwrap()@, old(self).meta_data.unwrap(), part),
            !r ==> final(self).disk == old(self).disk,
    {
        match (&self.meta_data, &mut self.disk, &self.inode_table) {
            (Some(meta_data), Some(disk), Some(_t)) => save_meta_data(meta_data, disk, part),
            _ => false,
        }
    }

    /// Reads block `block_num` of the disk; a zero block when not mounted or past the end.
    fn get_block(&mut self, block_num: usize) -> (r: Block)
        requires
            old(self).wf(),
        ensures
            final(self).wf(),
            final(self).meta_data == old(self).meta_data,
            final(self).inode_table == old(self).inode_table,
            final(self).disk is Some == old(self).disk is Some,
            old(self).disk is Some ==> final(self).disk.unwrap()@ == old(self).disk.unwrap()@,
            match old(self).disk {
                Some(d) => if block_num < d@.len() { r@ == d@[block_num as int] } else { r@ == zero_block() },
                None => r@ == zero_block(),
            },
    {
        match &mut self.disk {
            Some(disk) => {
                if block_num < disk.size() {
                    return fetch_block(disk, block_num);
                }
                Block::new()
            },
            _ => {
                return Block::new();
            },
        }
    }

    /// Access to inode `inumber`.
    pub fn get_inode(&mut self, inumber: usize) -> (r: InodeProxy)
        requires
            old(self).is_mounted(),
        ensures
            *final(self) == *old(self),
            r.inumber == inumber,
            r.data_manager is None,
    {
        InodeProxy::new(inumber)
    }
}


impl FileSystem {
    /// Creates a blank inode and returns its number, or -1 when not mounted or when adding fails.
    pub fn create(&mut self) -> (r: i64)
        requires
            old(self).wf(),
        ensures
            final(self).wf(),
            final(self).is_mounted() == old(self).is_mounted(),
            !old(self).is_mounted() ==> r == -1 && *final(self) == *old(self),
            old(self).is_mounted() && r != -1 ==> {
                let t = final(self).inode_table.unwrap()@;
                &&& in_table(t, r as int)
                &&& inode_at(t, r as int) == Inode::blank_spec()
                &&& old(self).meta_data.unwrap().superblock.free_inodes == 0 ==> {
                    &&& r == old(self).meta_data.unwrap().superblock.inodes + 1
                    &&& final(self).meta_data.unwrap().superblock.inodes == r
                    &&& final(self).meta_data.unwrap().superblock.free_inodes == 0
                }
                &&& old(self).meta_data.unwrap().superblock.free_inodes > 0 ==> {
                    &&& final(self).meta_data.unwrap().superblock.free_inodes == old(self).meta_data.unwrap().superblock.free_inodes - 1
                    &&& final(self).meta_data.unwrap().superblock.inodes == old(self).meta_data.unwrap().superblock.inodes
                }
            },
            old(self).is_mounted() && old(self).meta_data.unwrap().superblock.free_inodes == 0 ==>
                (r == -1 <==> crate::i_list::new_inode_fails(old(self).meta_data.unwrap(), old(self).disk.unwrap()@,
                    old(self).inode_table.unwrap()@, crate::i_list::index_for_count(old(self).meta_data.unwrap().superblock.inodes as int))),
            old(self).is_mounted() && old(self).meta_data.unwrap().superblock.free_inodes > 0 ==>
                r == crate::i_list::reused_inode(old(self).meta_data.unwrap(), old(self).disk.unwrap()@, old(self).inode_table.unwrap()@),
            old(self).is_mounted() ==> final(self).disk.unwrap()@.len() == old(self).disk.unwrap()@.len(),
    {
        match (&mut self.meta_data, &mut self.disk, &mut self.inode_table) {
            (Some(meta_data), Some(disk), Some(inode_table)) => {
                let inode = Inode::blank();
                let mut inode_list = InodeList::new(meta_data);
                let inumber = inode_list.add(meta_data, inode_table, disk, inode);
                save_meta_data(meta_data, disk, MetaPart::All);
                inumber
            },
            _ => -1,
        }
    }

    /// Removes inode `inumber` as `InodeList::remove` does; false when not mounted, when the
    /// inode table has no block for it, or when removing fails.
    pub fn remove(&mut self, inumber: usize) -> (r: bool)
        requires
            old(self).wf(),
        ensures
            final(self).wf(),
            final(self).is_mounted() == old(self).is_mounted(),
            !old(self).is_mounted() ==> !r && *final(self) == *old(self),
            r ==> {
                let t = final(self).inode_table.unwrap()@;
                &&& in_table(old(self).inode_table.unwrap()@, inumber as int)
                &&& final(self).meta_data.unwrap().superblock.free_inodes == old(self).meta_data.unwrap().superblock.free_inodes + 1
                &&& crate::i_list::free_inode_pointers(final(self).meta_data.unwrap()).contains(inumber as u32)
                &&& inode_at(t, inumber as int).data_block == 0
                &&& inode_at(t, inumber as int).size == 0
            },
            old(self).is_mounted() && in_table(old(self).inode_table.unwrap()@, inumber as int) ==> {
                let m = old(self).meta_data.unwrap();
                let d = old(self).disk.unwrap()@;
                let freed = crate::inode::blocks_in_use(d, inode_at(old(self).inode_table.unwrap()@, inumber as int));
                let z = crate::block::first_zero_from(crate::i_list::free_inode_pointers(m), 0);
                let st = crate::block::free_fold(m, d, freed, freed.len() as int);
                let b = crate::block::allocation_from(Superblock { free_blocks: st.free_blocks as u32, ..m.superblock }, st.head, d.len());
                let m1 = final(self).meta_data.unwrap();
                &&& !r <==> (freed.len() + m.superblock.free_blocks > u32::MAX || m.superblock.free_inodes == u32::MAX
                    || (z >= POINTERS_PER_BLOCK && !(0 < b < d.len())))
                &&& r ==> m1.superblock.inodes == m.superblock.inodes
                &&& r && z >= POINTERS_PER_BLOCK - 1 ==> crate::i_list::frees_then_allocates(m, d, freed, b, m1)
                &&& r && z >= POINTERS_PER_BLOCK - 1 && 0 < b < d.len() ==> {
                    &&& m1.inodes_free_list@ == crate::i_list::new_inode_head(b as u32, inumber as u32)
                    &&& b != ROOT_FREE_LIST ==> final(self).disk.unwrap()@[b as int] == m.inodes_free_list@
                }
                &&& r && z == POINTERS_PER_BLOCK - 1 && !(0 < b < d.len()) ==>
                    m1.inodes_free_list@ == crate::codec::put_u32(m.inodes_free_list@, 4 * z, inumber as u32)
                &&& r && z < POINTERS_PER_BLOCK - 1 ==> {
                    &&& m1.root_free_list@ == st.head
                    &&& m1.superblock == (Superblock {
                        free_blocks: st.free_blocks as u32,
                        free_inodes: (m.superblock.free_inodes + 1) as u32,
                        ..m.superblock
                    })
                }
            },
    {
        match (&mut self.meta_data, &mut self.disk, &mut self.inode_table) {
            (Some(meta_data), Some(disk), Some(inode_table)) => {
                if !has_inode_slot(inode_table, inumber) {
                    return false;
                }
                let mut inode_list = InodeList::new(meta_data);
                inode_list.remove(meta_data, inode_table, disk, inumber)
            },
            _ => false,
        }
    }

    /// Size in bytes of file `inumber`, or -1 when not mounted or the inode table has no
    /// block for it.
    pub fn stat(&mut self, inumber: usize) -> (r: i64)
        requires
            old(self).wf(),
        ensures
            *final(self) == *old(self),
            r == if old(self).is_mounted() && in_table(old(self).inode_table.unwrap()@, inumber as int) {
                inode_at(old(self).inode_table.unwrap()@, inumber as int).size as i64
            } else {
                -1i64
            },
    {
        match (&self.meta_data, &self.disk, &self.inode_table) {
            (Some(_m), Some(_d), Some(inode_table)) => {
                if !has_inode_slot(inode_table, inumber) {
                    return -1;
                }
                let inode = InodeProxy::new(inumber);
                inode.size(inode_table) as i64
            },
            _ => -1,
        }
    }

    /// Access to every valid inode that a walk of the inode list meets, numbered from 0 in
    /// the order of the walk.
    pub fn get_inodes(&mut self) -> (r: Vec<InodeProxy>)
        requires
            old(self).wf(),
            old(self).is_mounted(),
        ensures
            *final(self) == *old(self),
            forall|k: int| 0 <= k < r@.len() ==> (#[trigger] r@[k]).data_manager is None,
            exists|s0: InodeListIter| #[trigger] walk_start(old(self).meta_data.unwrap(), s0) && {
                let t = old(self).inode_table.unwrap()@;
                let nums = valid_inumbers(t, s0, s0.total_items as nat);
                &&& r@.len() == nums.len()
                &&& forall|k: int| 0 <= k < r@.len() ==> (#[trigger] r@[k]).inumber == nums[k]
            },
    {
        match (&self.meta_data, &self.disk, &self.inode_table) {
            (Some(meta_data), Some(_d), Some(inode_table)) => {
                let mut inode_list = InodeList::new(meta_data);
                let mut iter = inode_list.iter(meta_data);
                let ghost s0 = iter;
                let mut inodes: Vec<InodeProxy> = Vec::new();
                let mut inum: usize = 0;
                loop
                    invariant_except_break
                        iter == walk_after(inode_table@, s0, inum as nat),
                    invariant
                        iter.next_i <= iter.total_items,
                        iter.total_items == s0.total_items,
                        s0.next_i == 0,
                        inum == iter.next_i,
                        forall|k: int| 0 <= k < inodes@.len() ==> (#[trigger] inodes@[k]).data_manager is None,
                        ({
                            let nums = valid_inumbers(inode_table@, s0, inum as nat);
                            &&& inodes@.len() == nums.len()
                            &&& forall|k: int| 0 <= k < inodes@.len() ==> (#[trigger] inodes@[k]).inumber == nums[k]
                        }),
                    ensures
                        inum == s0.total_items,
                        forall|k: int| 0 <= k < inodes@.len() ==> (#[trigger] inodes@[k]).data_manager is None,
                        ({
                            let nums = valid_inumbers(inode_table@, s0, inum as nat);
                            &&& inodes@.len() == nums.len()
                            &&& forall|k: int| 0 <= k < inodes@.len() ==> (#[trigger] inodes@[k]).inumber == nums[k]
                        }),
                    decreases iter.total_items - iter.next_i,
                {
                    match iter.next(inode_table) {
                        Some(inode) => {
                            if inode.valid == 1 {
                                inodes.push(InodeProxy::new(inum));
                            }
                            inum += 1;
                        },
                        None => {
                            break;
                        },
                    }
                }
                proof {
                    assert(walk_start(*meta_data, s0));
                }
                inodes
            },
            _ => Vec::new(),
        }
    }

    /// The superblock that `meta_data` holds, and the inodes that a walk of the inode list of
    /// `disk` meets, in the order of the walk.
    pub fn debug_print(meta_data: &MetaData, disk: &mut Disk) -> (r: (Superblock, Vec<Inode>))
        requires
            INODES_ROOT_BLOCK < old(disk)@.len(),
        ensures
            r.0 == meta_data.superblock,
            lists_inodes(*meta_data, old(disk)@, r.1@),
            final(disk)@ == old(disk)@,
            final(disk).mount_count() == old(disk).mount_count(),
            final(disk).path_view() == old(disk).path_view(),
    {
        let inode_table = Self::generate_inode_table(meta_data, disk);
        let mut inode_list = InodeList::new(meta_data);
        let mut iter = inode_list.iter(meta_data);
        let ghost s0 = iter;
        let mut inodes: Vec<Inode> = Vec::new();
        loop
            invariant_except_break
                iter == walk_after(inode_table@, s0, inodes@.len()),
            invariant
                iter.next_i <= iter.total_items,
                iter.total_items == s0.total_items,
                iter.next_i == inodes@.len(),
                s0.next_i == 0,
                forall|k: int| 0 <= k < inodes@.len() ==> #[trigger] inodes@[k] == walk_item(inode_table@, walk_after(inode_table@, s0, k as nat)),
            ensures
                inodes@.len() == s0.total_items,
                forall|k: int| 0 <= k < inodes@.len() ==> #[trigger] inodes@[k] == walk_item(inode_table@, walk_after(inode_table@, s0, k as nat)),
            decreases iter.total_items - iter.next_i,
        {
            match iter.next(&inode_table) {
                Some(inode) => {
                    inodes.push(inode);
                },
                None => {
                    break;
                },
            }
        }
        proof {
            assert(walk_start(*meta_data, s0));
            assert(is_chain_table(old(disk)@, meta_data.inodes_root_block@, inode_table@));
            assert(lists_inodes(*meta_data, old(disk)@, inodes@));
        }
        (meta_data.superblock, inodes)
    }

    /// The superblock and the inodes of the inode list of `disk`, as `debug_print` gives them
    /// for the metadata read from it.
    pub fn debug(disk: &mut Disk) -> (r: (Superblock, Vec<Inode>))
        requires
            INODES_FREE_LIST < old(disk)@.len(),
        ensures
            r.0 == spec_superblock(old(disk)@[0]),
            exists|m: MetaData| m.superblock == spec_superblock(old(disk)@[0])
                && m.inodes_root_block@ == old(disk)@[INODES_ROOT_BLOCK as int]
                && #[trigger] lists_inodes(m, old(disk)@, r.1@),
            final(disk)@ == old(disk)@,
            final(disk).mount_count() == old(disk).mount_count(),
            final(disk).path_view() == old(disk).path_view(),
    {
        let meta_data = Self::read_meta_data(disk);
        Self::debug_print(&meta_data, disk)
    }

    /// What `debug_print` gives for the mounted disk; None when not mounted.
    pub fn info(&mut self) -> (r: Option<(Superblock, Vec<Inode>)>)
        requires
            old(self).wf(),
        ensures
            final(self).wf(),
            final(self).meta_data == old(self).meta_data,
            final(self).inode_table == old(self).inode_table,
            final(self).is_mounted() == old(self).is_mounted(),
            old(self).is_mounted() ==> final(self).disk.unwrap()@ == old(self).disk.unwrap()@,
            r is Some <==> old(self).is_mounted(),
            r is Some ==> r.unwrap().0 == old(self).meta_data.unwrap().superblock
                && lists_inodes(old(self).meta_data.unwrap(), old(self).disk.unwrap()@, r.unwrap().1@),
    {
        match (&self.meta_data, &mut self.disk) {
            (Some(meta_data), Some(disk)) => {
                if self.inode_table.is_some() {
                    Some(Self::debug_print(meta_data, disk))
                } else {
                    None
                }
            },
            _ => None,
        }
    }
}

/// `inodes` are the inodes that a walk of the inode list of `m` on the disk `d` meets, in the
/// order of the walk.
pub open spec fn lists_inodes(m: MetaData, d: Seq<Seq<u8>>, inodes: Seq<Inode>) -> bool {
    exists|s0: InodeListIter, t: Seq<(u32, InodeBlock)>|
        #[trigger] walk_start(m, s0) && #[trigger] is_chain_table(d, m.inodes_root_block@, t) && {
        &&& inodes.len() == s0.total_items
        &&& forall|k: int| 0 <= k < inodes.len() ==> #[trigger] inodes[k] == walk_item(t, walk_after(t, s0, k as nat))
    }
}

/// The walk `s0` is where a walk of the inode list of `m` starts: at its first inode, in its
/// root inode block, over the `inodes` inodes that its superblock counts.
pub open spec fn walk_start(m: MetaData, s0: InodeListIter) -> bool {
    &&& s0.next_i == 0
    &&& s0.iblock_index == 0
    &&& s0.total_items == m.superblock.inodes
    &&& encodes_inode_block(m.inodes_root_block@, s0.curr_inode_block)
}

/// The numbers of the valid inodes among the first `n` that the walk `s0` meets.
pub open spec fn valid_inumbers(t: Seq<(u32, InodeBlock)>, s0: InodeListIter, n: nat) -> Seq<usize>
    decreases n,
{
    if n == 0 {
        Seq::empty()
    } else {
        let before = valid_inumbers(t, s0, (n - 1) as nat);
        if walk_item(t, walk_after(t, s0, (n - 1) as nat)).valid == 1 {
            before.push((n - 1) as usize)
        } else {
            before
        }
    }
}

impl FileSystem {
    /// Reads up to `length` bytes of file `inumber` from byte `offset` into `data[0..]`, cut to
    /// the end of the file; returns the number of bytes read, 0 when `offset` is past the end,
    /// and -1 when not mounted or the inode table has no block for the file.
    pub fn read(&mut self, inumber: usize, data: &mut Vec<u8>, length: usize, offset: usize) -> (r: i64)
        requires
            old(self).wf(),
            old(self).is_mounted() && in_table(old(self).inode_table.unwrap()@, inumber as int)
                && offset <= inode_at(old(self).inode_table.unwrap()@, inumber as int).size ==> ({
                let size = inode_at(old(self).inode_table.unwrap()@, inumber as int).size;
                (if offset + length <= size { length as int } else { size - offset }) <= old(data)@.len()
            }),
        ensures
            final(self).wf(),
            final(self).meta_data == old(self).meta_data,
            final(self).inode_table == old(self).inode_table,
            final(self).disk is Some == old(self).disk is Some,
            old(self).disk is Some ==> final(self).disk.unwrap()@ == old(self).disk.unwrap()@,
            final(data)@.len() == old(data)@.len(),
            !(old(self).is_mounted() && in_table(old(self).inode_table.unwrap()@, inumber as int)) ==> r == -1,
            old(self).is_mounted() && in_table(old(self).inode_table.unwrap()@, inumber as int) ==> {
                let d = old(self).disk.unwrap()@;
                let x = inode_at(old(self).inode_table.unwrap()@, inumber as int);
                let blocks = file_blocks(d, x);
                let want = if offset + length <= x.size { length as int } else if offset > x.size { 0 } else { x.size - offset };
                &&& 0 <= r <= want
                &&& forall|k: int| 0 <= k < r ==> #[trigger] final(data)@[k] == file_byte(d, blocks, offset + k)
                &&& forall|k: int| r <= k < old(data)@.len() ==> #[trigger] final(data)@[k] == old(data)@[k]
                &&& forall|k: int| 0 <= k < r ==> #[trigger] can_read_at(d, blocks, x.size as int, offset + k)
                &&& r < want ==> !can_read_at(d, blocks, x.size as int, offset + r)
            },
    {
        match (&self.meta_data, &mut self.disk, &self.inode_table) {
            (Some(_m), Some(disk), Some(inode_table)) => {
                if !has_inode_slot(inode_table, inumber) {
                    return -1;
                }
                let mut inode_iter = InodeReadIter::new(inumber, inode_table, disk);
                let mut length = length;
                let file_size = inode_iter.get_inode().size(inode_table) as usize;
                if offset > file_size || length > file_size - offset {
                    if offset > file_size {
                        return 0;
                    }
                    length = file_size - offset;
                }
                inode_iter.seek(offset, inode_table);
                inode_iter.read_buffer(data, length, inode_table, disk)
            },
            _ => -1,
        }
    }
}

/// Most pointer levels that recording one data block can open or fill before it records the
/// data block itself.
pub const MAX_POINTER_STEPS: usize = 8;

/// Byte `i` of block `j` of a file that held `size0` bytes, in its data blocks `blocks0` on the
/// disk `d0`, before `bytes` were appended to it.
pub open spec fn appended_byte(d0: Seq<Seq<u8>>, blocks0: Seq<u32>, bytes: Seq<u8>, size0: int, j: int, i: int) -> u8 {
    if j * BLOCK_SIZE + i < size0 {
        d0[blocks0[j] as int][i]
    } else {
        bytes[j * BLOCK_SIZE + i - size0]
    }
}

/// The blocks of the one pointer level of file `x` on the disk `d`: none when its data pointers
/// have no pointer level.
pub open spec fn level_blocks(d: Seq<Seq<u8>>, x: Inode) -> Seq<u32> {
    if x.data_block > 0 && pointer_levels(x) == 1 {
        root_list(d, x.data_block)
    } else {
        Seq::empty()
    }
}

/// The data pointers `v` are as adding whole data blocks leaves them: with no pointer level the
/// data blocks fit in the root block, up to 1024 of them; with one, there are more than 1024
/// data blocks and the blocks of that level are as many as they fill, 1024 to a block.
pub open spec fn at_rest(v: DataPointerView) -> bool {
    let n = v.direct.len() as int;
    ||| v.indirect.len() == 0 && n <= POINTERS_PER_BLOCK
    ||| v.indirect.len() == 1 && POINTERS_PER_BLOCK < n
        && (v.indirect[0].len() - 1) * POINTERS_PER_BLOCK < n <= v.indirect[0].len() * POINTERS_PER_BLOCK
}

/// How many pointer blocks a file of `n` data blocks at rest has: none up to 1024 data
/// blocks, else one for each 1024 of them, the last one maybe not full.
pub open spec fn ptr_count(n: int) -> int {
    if n <= POINTERS_PER_BLOCK {
        0
    } else {
        (n + POINTERS_PER_BLOCK - 1) / POINTERS_PER_BLOCK as int
    }
}

/// How many pointer blocks the data pointers `v` take before they record the next data block.
pub open spec fn pending_pointers(v: DataPointerView) -> int {
    let n = v.direct.len() as int;
    if v.indirect.len() == 0 {
        if n == POINTERS_PER_BLOCK { 2 } else { 0 }
    } else if v.indirect[0].len() * POINTERS_PER_BLOCK <= n {
        1
    } else {
        0
    }
}

/// Allocations from the metadata `m` on the disk `d` run out after `blocks_left(m, d)` blocks,
/// and the blocks they hand out until then are distinct, lie on the disk after the metadata, and
/// are none of the blocks in use: the inode table block `e0`, the top pointer block `root`, the
/// data blocks `blocks` and the pointer blocks `ptrs`.
pub open spec fn pool_apart(m: MetaData, d: Seq<Seq<u8>>, e0: int, root: int, blocks: Seq<u32>, ptrs: Seq<u32>) -> bool {
    let left = blocks_left(m, d);
    &&& runs_out_at(m, d, left)
    &&& forall|k1: int, k2: int| 0 <= k1 < k2 < left ==> #[trigger] handed_out(m, d, k1) != #[trigger] handed_out(m, d, k2)
    &&& forall|k: int| 0 <= k < left ==> INODES_FREE_LIST < #[trigger] handed_out(m, d, k) < d.len()
        && handed_out(m, d, k) != e0 && handed_out(m, d, k) != root
    &&& forall|k: int, j: int| 0 <= k < left && 0 <= j < blocks.len() ==> #[trigger] handed_out(m, d, k) != #[trigger] blocks[j]
    &&& forall|k: int, j: int| 0 <= k < left && 0 <= j < ptrs.len() ==> #[trigger] handed_out(m, d, k) != #[trigger] ptrs[j]
}

/// File `inumber` of the mounted file system `fs` can take `length` more bytes with every block
/// it gets being new: its size is no more than its data blocks hold, which are distinct, and
/// stays under 1024 * 1024 - 1 blocks, so that its data pointers need at most one pointer level,
/// and they are at rest; the blocks in use (the metadata, the inode's block
/// of the inode table, the file's top pointer block, its pointer blocks and its data blocks) lie
/// on the disk apart from each other, and the blocks that allocations hand out are apart from
/// them (`pool_apart`).
pub open spec fn appends_cleanly(fs: FileSystem, inumber: int, length: int) -> bool {
    &&& fs.is_mounted()
    &&& appends_cleanly_parts(fs.meta_data.unwrap(), fs.disk.unwrap()@, fs.inode_table.unwrap()@, inumber, length)
}

/// `appends_cleanly` for the metadata `m`, the disk `d` and the inode table `t`.
pub open spec fn appends_cleanly_parts(m: MetaData, d: Seq<Seq<u8>>, t: Seq<(u32, InodeBlock)>, inumber: int, length: int) -> bool {
    let x = inode_at(t, inumber);
    let blocks = file_blocks(d, x);
    let ptrs = level_blocks(d, x);
    let e0 = table_block(t, inumber);
    &&& in_table(t, inumber)
    &&& x.size <= blocks.len() * BLOCK_SIZE
    &&& blocks.len() < POINTERS_PER_BLOCK * POINTERS_PER_BLOCK
    &&& x.size + length <= (POINTERS_PER_BLOCK * POINTERS_PER_BLOCK - 1) * BLOCK_SIZE
    &&& pointer_levels(x) <= 1
    &&& pointer_levels(x) == 1 ==> x.data_block > 0 && POINTERS_PER_BLOCK <= blocks.len()
    &&& at_rest(DataPointerView {
        direct: blocks,
        indirect: if pointer_levels(x) == 1 { seq![ptrs] } else { Seq::empty() },
        root: x.data_block,
    })
    &&& x.total_data_blocks + POINTERS_PER_BLOCK * POINTERS_PER_BLOCK <= u32::MAX + blocks.len()
    &&& INODES_FREE_LIST < d.len()
    &&& e0 < d.len()
    &&& x.data_block < d.len()
    &&& x.data_block > 0 ==> INODES_FREE_LIST < x.data_block && x.data_block != e0
    &&& forall|j: int| 0 <= j < blocks.len() ==> INODES_FREE_LIST < #[trigger] blocks[j] < d.len()
        && blocks[j] != e0 && blocks[j] != x.data_block
    &&& forall|i: int, j: int| 0 <= i < j < blocks.len() ==> #[trigger] blocks[i] != #[trigger] blocks[j]
    &&& forall|i: int| 0 <= i < ptrs.len() ==> INODES_FREE_LIST < #[trigger] ptrs[i] < d.len()
        && ptrs[i] != e0 && ptrs[i] != x.data_block
    &&& forall|i: int, j: int| 0 <= i < j < ptrs.len() ==> #[trigger] ptrs[i] != #[trigger] ptrs[j]
    &&& forall|i: int, j: int| 0 <= i < ptrs.len() && 0 <= j < blocks.len() ==> #[trigger] ptrs[i] != #[trigger] blocks[j]
    &&& pool_apart(m, d, e0, x.data_block as int, blocks, ptrs)
}

/// The metadata `m1` on the disk `d1` is the metadata `m0` on the disk `d0` after `u`
/// allocations: allocations from `m1` on `d1` hand out what allocations from `m0` on `d0` hand
/// out after the first `u`, and then run out.
pub open spec fn continues(m0: MetaData, d0: Seq<Seq<u8>>, m1: MetaData, d1: Seq<Seq<u8>>, u: int) -> bool {
    &&& took(m0, d0, m1, u)
    &&& blocks_left(m1, d1) == blocks_left(m0, d0) - u
    &&& runs_out_at(m1, d1, blocks_left(m1, d1))
    &&& forall|k: int| 0 <= k ==> #[trigger] handed_out(m1, d1, k) == handed_out(m0, d0, u + k)
}

/// What a write of `bytes` to file `inumber` that returned `r` did, from the metadata, disk and
/// inode table `m0`, `d0`, `t0` to `m1`, `d1`, `t1`: -1 only when the file had no top pointer
/// block and no block was left for one, and then nothing changed. Else `r` bytes went in, fewer
/// than asked only when no block was left, and then up to the end of a block; the size grew by
/// `r`. The earlier bytes stayed and the new ones read back, from where the file ended, as the
/// first `r` bytes of `bytes`. The write took the next blocks that
/// allocations from `m0` hand out, and left the rest of them to later allocations
/// (`continues`): one for a new top pointer block, the new data blocks (the bytes go to the
/// data blocks the file has past its size first) and the new pointer blocks, exactly those when
/// all bytes went in, and when the
/// write stopped short every block that was left, which were no more than the next data block
/// would have needed.
pub open spec fn appended_parts(
    m0: MetaData,
    d0: Seq<Seq<u8>>,
    t0: Seq<(u32, InodeBlock)>,
    m1: MetaData,
    d1: Seq<Seq<u8>>,
    t1: Seq<(u32, InodeBlock)>,
    inumber: int,
    bytes: Seq<u8>,
    r: int,
) -> bool {
    let x0 = inode_at(t0, inumber);
    let x1 = inode_at(t1, inumber);
    let b0 = file_blocks(d0, x0);
    let b1 = file_blocks(d1, x1);
    let n0 = b0.len() as int;
    let s0 = x0.size as int / BLOCK_SIZE as int;
    let left = blocks_left(m0, d0);
    let q = x0.size as int % BLOCK_SIZE as int;
    let root_new = if x0.data_block == 0 { 1int } else { 0 };
    let added = (q + r + BLOCK_SIZE - 1) / BLOCK_SIZE as int;
    let n1 = if s0 + added > n0 { s0 + added } else { n0 };
    &&& r == -1 ==> x0.data_block == 0 && left == 0 && m1 == m0 && d1 == d0 && t1 == t0
    &&& r >= 0 ==> exists|u: int| continues(m0, d0, m1, d1, u)
    &&& 0 <= r < bytes.len() ==> {
        &&& continues(m0, d0, m1, d1, left)
        &&& (q + r) % BLOCK_SIZE as int == 0
        &&& n0 <= s0 + added
        &&& left <= root_new + (n1 - n0) + ptr_count(n1 + 1) - ptr_count(n0)
    }
    &&& r == bytes.len() ==>
        continues(m0, d0, m1, d1, root_new + (n1 - n0) + ptr_count(n1) - ptr_count(n0))
    &&& r >= 0 ==> x1.size == x0.size + r
    &&& r >= 0 ==> b1.len() == n1
    &&& r >= 0 ==> {
        &&& forall|p: int| 0 <= p < x0.size ==> #[trigger] file_byte(d1, b1, p) == file_byte(d0, b0, p)
            && can_read_at(d1, b1, x1.size as int, p) == can_read_at(d0, b0, x0.size as int, p)
        &&& forall|k: int| 0 <= k < r ==> #[trigger] file_byte(d1, b1, x0.size + k) == bytes[k]
            && can_read_at(d1, b1, x1.size as int, x0.size + k)
    }
}

/// What a write of `bytes` to file `inumber` that returned `r` did to the file system, from
/// `fs0` to `fs1` (see `appended_parts`).
pub open spec fn appended(fs0: FileSystem, fs1: FileSystem, inumber: int, bytes: Seq<u8>, r: int) -> bool {
    appended_parts(
        fs0.meta_data.unwrap(),
        fs0.disk.unwrap()@,
        fs0.inode_table.unwrap()@,
        fs1.meta_data.unwrap(),
        fs1.disk.unwrap()@,
        fs1.inode_table.unwrap()@,
        inumber,
        bytes,
        r,
    )
}

/// The state of a write that appends `bytes` to a file of `size0` bytes whose data blocks were
/// `blocks0` and whose pointer blocks were `ptrs0`: `written` bytes are in; the blocks it took
/// are the ones that allocations from `m0` hand out after the `a0` taken for a new top pointer
/// block, the data blocks at the places `dpos` of that order and the pointer blocks at the
/// places `ppos`, and that many allocations were made; each full new block is on the disk, the
/// current one holds the bytes after them, the inode's size counts the bytes that are on the
/// disk, and the old data blocks are as they were.
pub open spec fn appending(
    w: InodeWriteIter,
    m: MetaData,
    t: Seq<(u32, InodeBlock)>,
    d: Seq<Seq<u8>>,
    d0: Seq<Seq<u8>>,
    blocks0: Seq<u32>,
    ptrs0: Seq<u32>,
    size0: int,
    s0: int,
    x0: Inode,
    root: u32,
    e0: int,
    m0: MetaData,
    a0: int,
    dpos: Seq<int>,
    ppos: Seq<int>,
    bytes: Seq<u8>,
    written: int,
) -> bool {
    let base = blocks0.len() as int;
    let pbase = ptrs0.len() as int;
    let mv = w.inode.data_manager.unwrap()@;
    let direct = mv.direct;
    let ind = mv.indirect;
    let n = direct.len() as int;
    let x = inode_at(t, w.inumber as int);
    let nwi = w.next_write_index as int;
    let idx = w.data_block_index as int;
    let u = a0 + dpos.len() + ppos.len();
    let left = blocks_left(m0, d0);
    &&& w.inode.data_manager is Some
    &&& w.inode.inumber == w.inumber
    &&& mv.root == root
    &&& n == base + dpos.len()
    &&& n < POINTERS_PER_BLOCK * POINTERS_PER_BLOCK
    &&& s0 * BLOCK_SIZE <= size0 < s0 * BLOCK_SIZE + BLOCK_SIZE
    &&& 0 <= s0 <= base
    &&& size0 > s0 * BLOCK_SIZE ==> s0 < base
    &&& 0 <= written <= bytes.len()
    &&& size0 + bytes.len() <= (POINTERS_PER_BLOCK * POINTERS_PER_BLOCK - 1) * BLOCK_SIZE
    &&& ind.len() <= 1
    &&& ind.len() == 0 ==> pbase == 0 && ppos.len() == 0 && n <= POINTERS_PER_BLOCK
    &&& ind.len() == 1 ==> {
        &&& ind[0].len() == pbase + ppos.len()
        &&& 1 <= ind[0].len()
        &&& (ind[0].len() - 1) * POINTERS_PER_BLOCK <= n <= ind[0].len() * POINTERS_PER_BLOCK
        &&& POINTERS_PER_BLOCK <= n
        &&& forall|i: int| 0 <= i < pbase ==> #[trigger] ind[0][i] == ptrs0[i]
        &&& forall|i: int| pbase <= i < ind[0].len() ==> #[trigger] ind[0][i] == handed_out(m0, d0, ppos[i - pbase])
    }
    &&& forall|j: int| 0 <= j < base ==> #[trigger] direct[j] == blocks0[j]
    &&& forall|i: int, j: int| 0 <= i < j < base ==> #[trigger] blocks0[i] != #[trigger] blocks0[j]
    &&& forall|j: int| base <= j < n ==> #[trigger] direct[j] == handed_out(m0, d0, dpos[j - base])
    &&& forall|i: int| 0 <= i < dpos.len() ==> a0 <= #[trigger] dpos[i] < u
    &&& forall|i: int| 0 <= i < ppos.len() ==> a0 <= #[trigger] ppos[i] < u
    &&& forall|i: int, j: int| 0 <= i < j < dpos.len() ==> #[trigger] dpos[i] < #[trigger] dpos[j]
    &&& forall|i: int, j: int| 0 <= i < j < ppos.len() ==> #[trigger] ppos[i] < #[trigger] ppos[j]
    &&& forall|i: int, j: int| 0 <= i < dpos.len() && 0 <= j < ppos.len() ==> #[trigger] dpos[i] != #[trigger] ppos[j]
    &&& runs_out_at(m0, d0, left)
    &&& forall|k: int| u <= k < left ==> d[#[trigger] handed_out(m0, d0, k)] == d0[handed_out(m0, d0, k)]
    &&& took(m0, d0, m, u)
    &&& a0 == 0 || a0 == 1
    &&& a0 == 1 ==> root == handed_out(m0, d0, 0)
    &&& forall|k1: int, k2: int| 0 <= k1 < k2 < left ==> #[trigger] handed_out(m0, d0, k1) != #[trigger] handed_out(m0, d0, k2)
    &&& forall|k: int| 0 <= k < left ==> INODES_FREE_LIST < #[trigger] handed_out(m0, d0, k) < d.len()
        && handed_out(m0, d0, k) != e0
    &&& forall|k: int| a0 <= k < left ==> #[trigger] handed_out(m0, d0, k) != root
    &&& forall|k: int, j: int| 0 <= k < left && 0 <= j < base ==> #[trigger] handed_out(m0, d0, k) != #[trigger] blocks0[j]
    &&& forall|k: int, j: int| 0 <= k < left && 0 <= j < pbase ==> #[trigger] handed_out(m0, d0, k) != #[trigger] ptrs0[j]
    &&& forall|j: int| 0 <= j < base ==> INODES_FREE_LIST < #[trigger] blocks0[j] < d.len()
        && blocks0[j] != e0 && blocks0[j] != root
    &&& forall|j: int| 0 <= j < pbase ==> INODES_FREE_LIST < #[trigger] ptrs0[j] < d.len()
        && ptrs0[j] != e0 && ptrs0[j] != root
    &&& forall|i: int, j: int| 0 <= i < j < pbase ==> #[trigger] ptrs0[i] != #[trigger] ptrs0[j]
    &&& forall|i: int, j: int| 0 <= i < pbase && 0 <= j < base ==> #[trigger] ptrs0[i] != #[trigger] blocks0[j]
    &&& 0 <= e0
    &&& INODES_FREE_LIST < root < d.len()
    &&& root != e0
    &&& in_table(t, w.inumber as int)
    &&& table_block(t, w.inumber as int) == e0
    &&& x.data_block == root
    &&& pointer_levels(x) == ind.len()
    &&& x.total_data_blocks <= x0.total_data_blocks + dpos.len()
    &&& x0.total_data_blocks + POINTERS_PER_BLOCK * POINTERS_PER_BLOCK <= u32::MAX + base
    &&& d.len() == d0.len()
    &&& forall|j: int| 0 <= j < s0 || idx <= j < base ==> #[trigger] d[blocks0[j] as int] == d0[blocks0[j] as int]
    &&& !w.aligned_to_block
    &&& n > base ==> w.data_block_num > 0 && idx >= n - 1
    &&& w.data_block_num == 0 ==> {
        &&& s0 == base
        &&& size0 == s0 * BLOCK_SIZE
        &&& written == 0
        &&& nwi == BLOCK_SIZE
        &&& w.flushed
        &&& idx == base
        &&& n == base
        &&& x.size == size0
        &&& loaded_pointers(d, x) == mv
    }
    &&& w.data_block_num > 0 ==> {
        &&& n > 0
        &&& s0 <= idx <= n
        &&& idx < n ==> w.data_block_num == direct[idx]
        &&& idx == n ==> nwi == 0 && w.flushed
        &&& idx * BLOCK_SIZE + nwi == size0 + written
        &&& nwi <= BLOCK_SIZE
        &&& w.flushed ==> nwi == 0 || (written == 0 && idx == s0 && nwi == size0 - s0 * BLOCK_SIZE)
        &&& !w.flushed ==> written > 0
        &&& x.size == idx * BLOCK_SIZE + w.counted_index
        &&& w.counted_index == if idx == s0 { size0 - s0 * BLOCK_SIZE } else { 0 }
        &&& w.curr_data_block@.len() == BLOCK_SIZE
        &&& forall|i: int| 0 <= i < nwi ==> #[trigger] w.curr_data_block@[i] == appended_byte(d0, blocks0, bytes, size0, idx, i)
        &&& forall|j: int, i: int| s0 <= j < idx && 0 <= i < BLOCK_SIZE ==>
            #[trigger] d[direct[j] as int][i] == appended_byte(d0, blocks0, bytes, size0, j, i)
        &&& forall|j: int| s0 <= j < idx ==> (#[trigger] d[direct[j] as int]).len() == BLOCK_SIZE
    }
}

/// Writing the next byte into the current block, which has room, keeps a write going.
proof fn lemma_append_byte(
    w0: InodeWriteIter,
    w1: InodeWriteIter,
    m: MetaData,
    mb: MetaData,
    t: Seq<(u32, InodeBlock)>,
    d: Seq<Seq<u8>>,
    d0: Seq<Seq<u8>>,
    blocks0: Seq<u32>,
    ptrs0: Seq<u32>,
    size0: int,
    s0: int,
    x0: Inode,
    root: u32,
    e0: int,
    m0: MetaData,
    a0: int,
    dpos: Seq<int>,
    ppos: Seq<int>,
    bytes: Seq<u8>,
    written: int,
)
    requires
        appending(w0, m, t, d, d0, blocks0, ptrs0, size0, s0, x0, root, e0, m0, a0, dpos, ppos, bytes, written),
        w0.data_block_num > 0,
        w0.data_block_index < w0.inode.data_manager.unwrap()@.direct.len(),
        w0.next_write_index < BLOCK_SIZE,
        written < bytes.len(),
        w1.inumber == w0.inumber,
        w1.inode.inumber == w0.inode.inumber,
        w1.inode.data_manager is Some,
        w1.inode.data_manager.unwrap()@ == w0.inode.data_manager.unwrap()@,
        w1.curr_data_block@ == w0.curr_data_block@.update(w0.next_write_index as int, bytes[written]),
        w1.next_write_index == w0.next_write_index + 1,
        w1.counted_index == w0.counted_index,
        w1.data_block_num == w0.data_block_num,
        w1.data_block_index == w0.data_block_index,
        !w1.flushed,
        !w1.aligned_to_block,
        mb.superblock == m.superblock,
        mb.root_free_list == m.root_free_list,
    ensures
        appending(w1, mb, t, d, d0, blocks0, ptrs0, size0, s0, x0, root, e0, m0, a0, dpos, ppos, bytes, written + 1),
{
    lemma_took_same(m0, d0, m, mb, a0 + dpos.len() + ppos.len());
    let idx = w0.data_block_index as int;
    let nwi = w0.next_write_index as int;
    assert forall|i: int| 0 <= i < nwi + 1 implies #[trigger] w1.curr_data_block@[i] == appended_byte(d0, blocks0, bytes, size0, idx, i) by {
        if i == nwi {
            assert(idx * BLOCK_SIZE + i - size0 == written);
        }
    }
}

/// A write goes on under metadata with the same superblock and free-list head block.
proof fn lemma_append_same(
    w: InodeWriteIter,
    ma: MetaData,
    mb: MetaData,
    t: Seq<(u32, InodeBlock)>,
    d: Seq<Seq<u8>>,
    d0: Seq<Seq<u8>>,
    blocks0: Seq<u32>,
    ptrs0: Seq<u32>,
    size0: int,
    s0: int,
    x0: Inode,
    root: u32,
    e0: int,
    m0: MetaData,
    a0: int,
    dpos: Seq<int>,
    ppos: Seq<int>,
    bytes: Seq<u8>,
    written: int,
)
    requires
        appending(w, ma, t, d, d0, blocks0, ptrs0, size0, s0, x0, root, e0, m0, a0, dpos, ppos, bytes, written),
        mb.superblock == ma.superblock,
        mb.root_free_list == ma.root_free_list,
    ensures
        appending(w, mb, t, d, d0, blocks0, ptrs0, size0, s0, x0, root, e0, m0, a0, dpos, ppos, bytes, written),
{
    lemma_took_same(m0, d0, ma, mb, a0 + dpos.len() + ppos.len());
}

/// The data blocks and pointer blocks of a write are all different blocks, none of them the
/// root block, the inode table block or an old data block.
#[verifier::spinoff_prover]
proof fn lemma_append_apart(
    w: InodeWriteIter,
    m: MetaData,
    t: Seq<(u32, InodeBlock)>,
    d: Seq<Seq<u8>>,
    d0: Seq<Seq<u8>>,
    blocks0: Seq<u32>,
    ptrs0: Seq<u32>,
    size0: int,
    s0: int,
    x0: Inode,
    root: u32,
    e0: int,
    m0: MetaData,
    a0: int,
    dpos: Seq<int>,
    ppos: Seq<int>,
    bytes: Seq<u8>,
    written: int,
)
    requires
        appending(w, m, t, d, d0, blocks0, ptrs0, size0, s0, x0, root, e0, m0, a0, dpos, ppos, bytes, written),
    ensures
        ({
            let v = w.inode.data_manager.unwrap()@;
            let direct = v.direct;
            let base = blocks0.len() as int;
            &&& forall|j: int| 0 <= j < direct.len() ==> INODES_FREE_LIST < #[trigger] direct[j] < d.len()
                && direct[j] != e0 && direct[j] != root
            &&& forall|j: int, k: int| 0 <= j < k < direct.len() ==> #[trigger] direct[j] != #[trigger] direct[k]
            &&& forall|j: int, k: int| base <= j < direct.len() && 0 <= k < base ==> #[trigger] direct[j] != #[trigger] blocks0[k]
            &&& v.indirect.len() == 1 ==> {
                let l0 = v.indirect[0];
                &&& l0.len() <= POINTERS_PER_BLOCK
                &&& forall|i: int| 0 <= i < l0.len() ==> INODES_FREE_LIST < #[trigger] l0[i] < d.len()
                    && l0[i] != e0 && l0[i] != root
                &&& forall|i: int, k: int| 0 <= i < k < l0.len() ==> #[trigger] l0[i] != #[trigger] l0[k]
                &&& forall|i: int, j: int| 0 <= i < l0.len() && 0 <= j < direct.len() ==> #[trigger] l0[i] != #[trigger] direct[j]
            }
        }),
{
    let v = w.inode.data_manager.unwrap()@;
    let direct = v.direct;
    let base = blocks0.len() as int;
    let pbase = ptrs0.len() as int;
    let u = a0 + dpos.len() + ppos.len();
    assert(u <= blocks_left(m0, d0));
    assert forall|j: int| 0 <= j < direct.len() implies INODES_FREE_LIST < #[trigger] direct[j] < d.len()
        && direct[j] != e0 && direct[j] != root by {
        if j >= base {
            assert(direct[j] == handed_out(m0, d0, dpos[j - base]));
        }
    }
    assert forall|j: int, k: int| 0 <= j < k < direct.len() implies #[trigger] direct[j] != #[trigger] direct[k] by {
        if k < base {
            assert(direct[j] == blocks0[j]);
            assert(direct[k] == blocks0[k]);
        } else if j < base {
            assert(direct[j] == blocks0[j]);
            assert(direct[k] == handed_out(m0, d0, dpos[k - base]));
        } else {
            assert(dpos[j - base] < dpos[k - base]);
            assert(handed_out(m0, d0, dpos[j - base]) != handed_out(m0, d0, dpos[k - base]));
        }
    }
    assert forall|j: int, k: int| base <= j < direct.len() && 0 <= k < base implies #[trigger] direct[j] != #[trigger] blocks0[k] by {
        assert(direct[j] == handed_out(m0, d0, dpos[j - base]));
    }
    if v.indirect.len() == 1 {
        let l0 = v.indirect[0];
        assert(l0.len() <= POINTERS_PER_BLOCK) by (nonlinear_arith)
            requires
                (l0.len() - 1) * POINTERS_PER_BLOCK <= direct.len(),
                direct.len() < POINTERS_PER_BLOCK * POINTERS_PER_BLOCK,
        ;
        assert forall|i: int| 0 <= i < l0.len() implies INODES_FREE_LIST < #[trigger] l0[i] < d.len()
            && l0[i] != e0 && l0[i] != root by {
            if i >= pbase {
                assert(l0[i] == handed_out(m0, d0, ppos[i - pbase]));
            } else {
                assert(l0[i] == ptrs0[i]);
            }
        }
        assert forall|i: int, k: int| 0 <= i < k < l0.len() implies #[trigger] l0[i] != #[trigger] l0[k] by {
            if k < pbase {
                assert(l0[i] == ptrs0[i]);
                assert(l0[k] == ptrs0[k]);
            } else if i < pbase {
                assert(l0[i] == ptrs0[i]);
                assert(l0[k] == handed_out(m0, d0, ppos[k - pbase]));
            } else {
                assert(ppos[i - pbase] < ppos[k - pbase]);
                assert(handed_out(m0, d0, ppos[i - pbase]) != handed_out(m0, d0, ppos[k - pbase]));
            }
        }
        assert forall|i: int, j: int| 0 <= i < l0.len() && 0 <= j < direct.len() implies #[trigger] l0[i] != #[trigger] direct[j] by {
            if i < pbase {
                assert(l0[i] == ptrs0[i]);
                if j < base {
                    assert(direct[j] == blocks0[j]);
                } else {
                    assert(direct[j] == handed_out(m0, d0, dpos[j - base]));
                }
            } else {
                assert(l0[i] == handed_out(m0, d0, ppos[i - pbase]));
                if j < base {
                    assert(direct[j] == blocks0[j]);
                } else {
                    assert(direct[j] == handed_out(m0, d0, dpos[j - base]));
                    assert(dpos[j - base] != ppos[i - pbase]);
                    if dpos[j - base] < ppos[i - pbase] {
                        assert(handed_out(m0, d0, dpos[j - base]) != handed_out(m0, d0, ppos[i - pbase]));
                    } else {
                        assert(handed_out(m0, d0, ppos[i - pbase]) != handed_out(m0, d0, dpos[j - base]));
                    }
                }
            }
        }
    }
}

/// Writing the current block and then the inode leaves the blocks that allocations are still
/// to hand out as they were before the write.
#[verifier::spinoff_prover]
proof fn lemma_append_kept(
    w0: InodeWriteIter,
    w1: InodeWriteIter,
    ma: MetaData,
    t0: Seq<(u32, InodeBlock)>,
    t1: Seq<(u32, InodeBlock)>,
    dd0: Seq<Seq<u8>>,
    dd1: Seq<Seq<u8>>,
    d0: Seq<Seq<u8>>,
    blocks0: Seq<u32>,
    ptrs0: Seq<u32>,
    size0: int,
    s0: int,
    x0: Inode,
    root: u32,
    e0: int,
    m0: MetaData,
    a0: int,
    dpos: Seq<int>,
    ppos: Seq<int>,
    bytes: Seq<u8>,
    written: int,
    writes: bool,
)
    requires
        appending(w0, ma, t0, dd0, d0, blocks0, ptrs0, size0, s0, x0, root, e0, m0, a0, dpos, ppos, bytes, written),
        writes ==> w0.data_block_num > 0 && w0.data_block_index < w0.inode.data_manager.unwrap()@.direct.len(),
        w1.inumber == w0.inumber,
        w1.inode.data_manager is Some,
        w1.inode.data_manager.unwrap()@ == w0.inode.data_manager.unwrap()@,
        table_block(t1, w0.inumber as int) == e0,
        inode_written(w1, t1, if writes { with_block(dd0, w0.data_block_num, w0.curr_data_block@) } else { dd0 }, dd1),
    ensures
        forall|k: int| a0 + dpos.len() + ppos.len() <= k < blocks_left(m0, d0)
            ==> dd1[#[trigger] handed_out(m0, d0, k)] == d0[handed_out(m0, d0, k)],
{
    let mv = w0.inode.data_manager.unwrap()@;
    let direct = mv.direct;
    let base = blocks0.len() as int;
    let pbase = ptrs0.len() as int;
    let idx = w0.data_block_index as int;
    let num = w0.data_block_num;
    let u = a0 + dpos.len() + ppos.len();
    let d1 = if writes { with_block(dd0, num, w0.curr_data_block@) } else { dd0 };
    assert forall|k: int| u <= k < blocks_left(m0, d0) implies dd1[#[trigger] handed_out(m0, d0, k)] == d0[handed_out(m0, d0, k)] by {
        let h = handed_out(m0, d0, k);
        if writes {
            assert(num == direct[idx]);
            if idx < base {
                assert(direct[idx] == blocks0[idx]);
            } else {
                assert(direct[idx] == handed_out(m0, d0, dpos[idx - base]));
                assert(handed_out(m0, d0, dpos[idx - base]) != h);
            }
        }
        if mv.indirect.len() == 1 {
            assert forall|i: int| 0 <= i < mv.indirect[0].len() implies #[trigger] mv.indirect[0][i] != h by {
                if i < pbase {
                    assert(mv.indirect[0][i] == ptrs0[i]);
                } else {
                    assert(mv.indirect[0][i] == handed_out(m0, d0, ppos[i - pbase]));
                    assert(handed_out(m0, d0, ppos[i - pbase]) != h);
                }
            }
        }
        lemma_written_other(w1, t1, d1, dd1, h);
        assert(d1[h] == dd0[h]);
    }
}

/// Writing a byte when the current block is full writes that block and moves past it: the
/// write goes on with one more full block on the disk.
#[verifier::spinoff_prover]
proof fn lemma_append_flush(
    w0: InodeWriteIter,
    w1: InodeWriteIter,
    ma: MetaData,
    mb: MetaData,
    t0: Seq<(u32, InodeBlock)>,
    t1: Seq<(u32, InodeBlock)>,
    dd0: Seq<Seq<u8>>,
    dd1: Seq<Seq<u8>>,
    d0: Seq<Seq<u8>>,
    blocks0: Seq<u32>,
    ptrs0: Seq<u32>,
    size0: int,
    s0: int,
    x0: Inode,
    root: u32,
    e0: int,
    m0: MetaData,
    a0: int,
    dpos: Seq<int>,
    ppos: Seq<int>,
    bytes: Seq<u8>,
    written: int,
)
    requires
        appending(w0, ma, t0, dd0, d0, blocks0, ptrs0, size0, s0, x0, root, e0, m0, a0, dpos, ppos, bytes, written),
        w0.data_block_num > 0,
        w0.data_block_index == w0.inode.data_manager.unwrap()@.direct.len() - 1,
        w0.next_write_index >= BLOCK_SIZE,
        mb.superblock == ma.superblock,
        mb.root_free_list == ma.root_free_list,
        w1.inumber == w0.inumber,
        w1.inode.inumber == w0.inode.inumber,
        w1.inode.data_manager is Some,
        w1.inode.data_manager.unwrap()@ == w0.inode.data_manager.unwrap()@,
        ({
            let x = inode_at(t0, w0.inumber as int);
            let grows = x.size + (w0.next_write_index - w0.counted_index) <= u32::MAX;
            let d1 = with_block(dd0, w0.data_block_num, w0.curr_data_block@);
            &&& grows ==> table_sets_inode(t0, t1, w0.inumber as int, Inode { size: (x.size + (w0.next_write_index - w0.counted_index)) as u32, ..x })
            &&& !grows ==> t1 == t0
            &&& inode_written(w1, t1, d1, dd1)
        }),
        w1.data_block_index == w0.data_block_index + 1,
        w1.data_block_num == w0.data_block_num,
        w1.curr_data_block == w0.curr_data_block,
        w1.next_write_index == 0,
        w1.counted_index == 0,
        w1.flushed,
        w1.aligned_to_block == w0.aligned_to_block,
    ensures
        appending(w1, mb, t1, dd1, d0, blocks0, ptrs0, size0, s0, x0, root, e0, m0, a0, dpos, ppos, bytes, written),
        w1.data_block_index == w1.inode.data_manager.unwrap()@.direct.len(),
{
    let inum = w0.inumber as int;
    let mv = w0.inode.data_manager.unwrap()@;
    let direct = mv.direct;
    let base = blocks0.len() as int;
    let idx = w0.data_block_index as int;
    let num = w0.data_block_num;
    let x = inode_at(t0, inum);
    let d1 = with_block(dd0, num, w0.curr_data_block@);
    lemma_append_apart(w0, ma, t0, dd0, d0, blocks0, ptrs0, size0, s0, x0, root, e0, m0, a0, dpos, ppos, bytes, written);
    lemma_took_same(m0, d0, ma, mb, a0 + dpos.len() + ppos.len());
    assert(num == direct[idx]);
    assert(num < dd0.len());
    assert(d1[num as int] == w0.curr_data_block@);
    assert(table_block(t1, inum) == e0);
    assert(w1.inumber == w0.inumber);
    // Every data block keeps what the flush wrote to it: only the root, the pointer blocks and
    // the inode table block change after that.
    assert forall|j: int| 0 <= j < direct.len() implies #[trigger] dd1[direct[j] as int] == d1[direct[j] as int] by {
        if mv.indirect.len() == 1 {
            assert forall|i: int| 0 <= i < mv.indirect[0].len() implies #[trigger] mv.indirect[0][i] != direct[j] by {
                assert(mv.indirect[0][i] != direct[j]);
            }
        }
        lemma_written_other(w1, t1, d1, dd1, direct[j] as int);
    }
    assert(dd1[num as int] == w0.curr_data_block@);
    lemma_append_kept(w0, w1, ma, t0, t1, dd0, dd1, d0, blocks0, ptrs0, size0, s0, x0, root, e0, m0, a0, dpos, ppos, bytes, written, true);
    assert forall|j: int| 0 <= j < s0 || idx + 1 <= j < base implies #[trigger] dd1[blocks0[j] as int] == d0[blocks0[j] as int] by {
        assert(direct[j] == blocks0[j]);
        assert(direct[idx] != direct[j]);
        assert(dd1[direct[j] as int] == d1[direct[j] as int]);
        assert(d1[blocks0[j] as int] == dd0[blocks0[j] as int]);
    }
    assert forall|j: int, i: int| s0 <= j < idx + 1 && 0 <= i < BLOCK_SIZE implies
        #[trigger] dd1[direct[j] as int][i] == appended_byte(d0, blocks0, bytes, size0, j, i) by {
        if j < idx {
            assert(direct[j] != direct[idx]);
            assert(dd1[direct[j] as int] == d1[direct[j] as int]);
            assert(d1[direct[j] as int] == dd0[direct[j] as int]);
        }
    }
    assert forall|j: int| s0 <= j < idx + 1 implies (#[trigger] dd1[direct[j] as int]).len() == BLOCK_SIZE by {
        if j < idx {
            assert(direct[j] != direct[idx]);
            assert(dd1[direct[j] as int] == d1[direct[j] as int]);
            assert(d1[direct[j] as int] == dd0[direct[j] as int]);
        }
    }
}

/// Writing a byte when the current block is full and the file has a data block after it writes
/// the current block and goes on in the next one, with the byte at its start.
#[verifier::spinoff_prover]
proof fn lemma_append_next(
    w0: InodeWriteIter,
    w1: InodeWriteIter,
    ma: MetaData,
    mb: MetaData,
    t0: Seq<(u32, InodeBlock)>,
    t1: Seq<(u32, InodeBlock)>,
    dd0: Seq<Seq<u8>>,
    dd1: Seq<Seq<u8>>,
    d0: Seq<Seq<u8>>,
    blocks0: Seq<u32>,
    ptrs0: Seq<u32>,
    size0: int,
    s0: int,
    x0: Inode,
    root: u32,
    e0: int,
    m0: MetaData,
    a0: int,
    dpos: Seq<int>,
    ppos: Seq<int>,
    bytes: Seq<u8>,
    written: int,
)
    requires
        appending(w0, ma, t0, dd0, d0, blocks0, ptrs0, size0, s0, x0, root, e0, m0, a0, dpos, ppos, bytes, written),
        w0.data_block_num > 0,
        w0.data_block_index + 1 < w0.inode.data_manager.unwrap()@.direct.len(),
        w0.next_write_index >= BLOCK_SIZE,
        written < bytes.len(),
        mb.superblock == ma.superblock,
        mb.root_free_list == ma.root_free_list,
        w1.inumber == w0.inumber,
        w1.inode.inumber == w0.inode.inumber,
        w1.inode.data_manager is Some,
        w1.inode.data_manager.unwrap()@ == w0.inode.data_manager.unwrap()@,
        ({
            let x = inode_at(t0, w0.inumber as int);
            let grows = x.size + (w0.next_write_index - w0.counted_index) <= u32::MAX;
            let d1 = with_block(dd0, w0.data_block_num, w0.curr_data_block@);
            &&& grows ==> table_sets_inode(t0, t1, w0.inumber as int, Inode { size: (x.size + (w0.next_write_index - w0.counted_index)) as u32, ..x })
            &&& !grows ==> t1 == t0
            &&& inode_written(w1, t1, d1, dd1)
        }),
        w1.data_block_index == w0.data_block_index + 1,
        w1.data_block_num == w0.inode.data_manager.unwrap()@.direct[w0.data_block_index + 1],
        w1.curr_data_block@[0] == bytes[written],
        w1.curr_data_block@.len() == BLOCK_SIZE,
        w1.next_write_index == 1,
        w1.counted_index == 0,
        !w1.flushed,
        !w1.aligned_to_block,
    ensures
        appending(w1, mb, t1, dd1, d0, blocks0, ptrs0, size0, s0, x0, root, e0, m0, a0, dpos, ppos, bytes, written + 1),
{
    let inum = w0.inumber as int;
    let mv = w0.inode.data_manager.unwrap()@;
    let direct = mv.direct;
    let base = blocks0.len() as int;
    let idx = w0.data_block_index as int;
    let num = w0.data_block_num;
    let d1 = with_block(dd0, num, w0.curr_data_block@);
    lemma_append_apart(w0, ma, t0, dd0, d0, blocks0, ptrs0, size0, s0, x0, root, e0, m0, a0, dpos, ppos, bytes, written);
    lemma_took_same(m0, d0, ma, mb, a0 + dpos.len() + ppos.len());
    assert(num == direct[idx]);
    assert(num < dd0.len());
    assert(d1[num as int] == w0.curr_data_block@);
    assert(table_block(t1, inum) == e0);
    assert forall|j: int| 0 <= j < direct.len() implies #[trigger] dd1[direct[j] as int] == d1[direct[j] as int] by {
        if mv.indirect.len() == 1 {
            assert forall|i: int| 0 <= i < mv.indirect[0].len() implies #[trigger] mv.indirect[0][i] != direct[j] by {
                assert(mv.indirect[0][i] != direct[j]);
            }
        }
        lemma_written_other(w1, t1, d1, dd1, direct[j] as int);
    }
    assert(dd1[num as int] == w0.curr_data_block@);
    lemma_append_kept(w0, w1, ma, t0, t1, dd0, dd1, d0, blocks0, ptrs0, size0, s0, x0, root, e0, m0, a0, dpos, ppos, bytes, written, true);
    assert forall|j: int| 0 <= j < s0 || idx + 1 <= j < base implies #[trigger] dd1[blocks0[j] as int] == d0[blocks0[j] as int] by {
        assert(direct[j] == blocks0[j]);
        assert(direct[idx] != direct[j]);
        assert(dd1[direct[j] as int] == d1[direct[j] as int]);
        assert(d1[blocks0[j] as int] == dd0[blocks0[j] as int]);
    }
    assert forall|j: int, i: int| s0 <= j < idx + 1 && 0 <= i < BLOCK_SIZE implies
        #[trigger] dd1[direct[j] as int][i] == appended_byte(d0, blocks0, bytes, size0, j, i) by {
        if j < idx {
            assert(direct[j] != direct[idx]);
            assert(dd1[direct[j] as int] == d1[direct[j] as int]);
            assert(d1[direct[j] as int] == dd0[direct[j] as int]);
        }
    }
    assert forall|j: int| s0 <= j < idx + 1 implies (#[trigger] dd1[direct[j] as int]).len() == BLOCK_SIZE by {
        if j < idx {
            assert(direct[j] != direct[idx]);
            assert(dd1[direct[j] as int] == d1[direct[j] as int]);
            assert(d1[direct[j] as int] == dd0[direct[j] as int]);
        }
    }
    assert((idx + 1) * BLOCK_SIZE + 0 - size0 == written);
    assert(w1.curr_data_block@[0] == appended_byte(d0, blocks0, bytes, size0, idx + 1, 0));
}

/// Taking the next block that the allocations hand out and recording it in the data pointers:
/// it opens or fills the pointer level when the pointers need a pointer block first, else it
/// becomes the next data block and the write's new, empty current block.
#[verifier::spinoff_prover]
proof fn lemma_append_add(
    w0: InodeWriteIter,
    w1: InodeWriteIter,
    ma: MetaData,
    mb: MetaData,
    t0: Seq<(u32, InodeBlock)>,
    t1: Seq<(u32, InodeBlock)>,
    dd0: Seq<Seq<u8>>,
    dd1: Seq<Seq<u8>>,
    d0: Seq<Seq<u8>>,
    blocks0: Seq<u32>,
    ptrs0: Seq<u32>,
    size0: int,
    s0: int,
    x0: Inode,
    root: u32,
    e0: int,
    m0: MetaData,
    a0: int,
    dpos: Seq<int>,
    ppos: Seq<int>,
    bytes: Seq<u8>,
    written: int,
    blk: i64,
    r: i64,
)
    requires
        appending(w0, ma, t0, dd0, d0, blocks0, ptrs0, size0, s0, x0, root, e0, m0, a0, dpos, ppos, bytes, written),
        written < bytes.len(),
        w0.data_block_num == 0 || w0.data_block_index == w0.inode.data_manager.unwrap()@.direct.len(),
        allocates(ma, dd0, blk, mb, dd1),
        blk > 0,
        w1.inumber == w0.inumber,
        w1.inode.inumber == w0.inumber,
        inode_at(t0, w0.inumber as int).total_data_blocks < u32::MAX ==> {
            let x = inode_at(t0, w0.inumber as int);
            let v0 = w0.inode.data_manager.unwrap()@;
            &&& r >= 0
            &&& w1.inode.data_manager is Some
            &&& adds_block(v0, blk as u32, w1.inode.data_manager.unwrap()@, r)
            &&& w1.data_block_num == blk as u32
            &&& w1.next_write_index == 0
            &&& w1.counted_index == 0
            &&& w1.curr_data_block@ == zero_block()
            &&& w1.data_block_index == w0.data_block_index
            &&& w1.flushed == w0.flushed
            &&& w1.aligned_to_block == w0.aligned_to_block
            &&& table_sets_inode(t0, t1, w0.inumber as int,
                Inode {
                    blk_pointer_level: stored_level(w1.inode.data_manager.unwrap()@),
                    total_data_blocks: if r == 0 { (x.total_data_blocks + 1) as u32 } else { x.total_data_blocks },
                    ..x
                })
        },
    ensures
        r == 0 || r == 1,
        ({
            let u = a0 + dpos.len() + ppos.len();
            appending(w1, mb, t1, dd1, d0, blocks0, ptrs0, size0, s0, x0, root, e0, m0, a0,
                if r == 0 { dpos.push(u) } else { dpos }, if r == 0 { ppos } else { ppos.push(u) }, bytes, written)
        }),
        w1.data_block_num > 0,
        r == 0 ==> w1.data_block_index == w1.inode.data_manager.unwrap()@.direct.len() - 1,
        r == 0 ==> pending_pointers(w0.inode.data_manager.unwrap()@) == 0,
        r == 0 ==> at_rest(w1.inode.data_manager.unwrap()@)
            || (w1.inode.data_manager.unwrap()@.indirect.len() == 0
                && w1.inode.data_manager.unwrap()@.direct.len() == POINTERS_PER_BLOCK),
        r == 1 ==> w1.data_block_index == w1.inode.data_manager.unwrap()@.direct.len(),
        r == 1 ==> pending_pointers(w1.inode.data_manager.unwrap()@) == pending_pointers(w0.inode.data_manager.unwrap()@) - 1,
{
    let inum = w0.inumber as int;
    let v0 = w0.inode.data_manager.unwrap()@;
    let n = v0.direct.len() as int;
    let base = blocks0.len() as int;
    let pbase = ptrs0.len() as int;
    let x = inode_at(t0, inum);
    let u = a0 + dpos.len() + ppos.len();
    lemma_append_apart(w0, ma, t0, dd0, d0, blocks0, ptrs0, size0, s0, x0, root, e0, m0, a0, dpos, ppos, bytes, written);
    lemma_take_next(m0, d0, ma, u, dd0, blk, mb, dd1);
    assert(u < blocks_left(m0, d0));
    assert(blk == handed_out(m0, d0, u));
    // The file has fewer than 1024 * 1024 - 1 data blocks when it takes one more.
    assert(n * BLOCK_SIZE == size0 + written);
    assert(n < POINTERS_PER_BLOCK * POINTERS_PER_BLOCK - 1) by (nonlinear_arith)
        requires
            n * BLOCK_SIZE == size0 + written,
            written < bytes.len(),
            size0 + bytes.len() <= (POINTERS_PER_BLOCK * POINTERS_PER_BLOCK - 1) * BLOCK_SIZE,
    ;
    assert(x.total_data_blocks < u32::MAX);
    lemma_log_ppb_one(n as nat);
    lemma_log_ppb_one((n + 1) as nat);
    let v1 = w1.inode.data_manager.unwrap()@;
    let depth = log_ppb(n as nat);
    assert(pow_ppb(1) == POINTERS_PER_BLOCK) by {
        reveal_with_fuel(pow_ppb, 2);
    }
    if v0.indirect.len() == 0 && n < POINTERS_PER_BLOCK {
        assert(depth == 0);
        assert(level_with_room(v0.indirect, n as nat, 0, 0) == 0);
        assert(r == 0);
        assert(v1.direct == v0.direct.push(blk as u32));
    } else if v0.indirect.len() == 0 {
        assert(n == POINTERS_PER_BLOCK);
        assert(depth == 1);
        assert(r == 1);
        assert(v1.indirect == seq![seq![blk as u32]]);
        assert(v1.direct == v0.direct);
    } else {
        assert(depth == 1);
        let l0 = v0.indirect[0];
        if l0.len() <= n / POINTERS_PER_BLOCK as int {
            assert(level_with_room(v0.indirect, n as nat, 1, 0) == 0);
            assert(r == 1);
            assert(v1.indirect == seq![l0.push(blk as u32)]) by {
                assert(v1.indirect == v0.indirect.update(0, l0.push(blk as u32)));
            }
            assert(v1.direct == v0.direct);
            assert(l0.len() * POINTERS_PER_BLOCK <= n) by (nonlinear_arith)
                requires
                    l0.len() <= n / POINTERS_PER_BLOCK as int,
                    0 <= n,
            ;
        } else {
            assert(level_with_room(v0.indirect, n as nat, 1, 1) == 1);
            assert(level_with_room(v0.indirect, n as nat, 1, 0) == 1);
            assert(r == 0);
            assert(v1.direct == v0.direct.push(blk as u32));
            assert(v1.indirect == v0.indirect);
            assert(n < l0.len() * POINTERS_PER_BLOCK) by (nonlinear_arith)
                requires
                    l0.len() > n / POINTERS_PER_BLOCK as int,
                    0 <= n,
            ;
        }
    }
    let dpos1 = if r == 0 { dpos.push(u) } else { dpos };
    let ppos1 = if r == 0 { ppos } else { ppos.push(u) };
    assert(table_block(t1, inum) == e0);
    assert forall|j: int| 0 <= j < s0 || w0.data_block_index <= j < base implies #[trigger] dd1[blocks0[j] as int] == d0[blocks0[j] as int] by {
        assert(dd1[blocks0[j] as int] == dd0[blocks0[j] as int]);
    }
    assert forall|j: int| base <= j < v1.direct.len() implies #[trigger] v1.direct[j] == handed_out(m0, d0, dpos1[j - base]) by {
        if j < n {
            assert(v1.direct[j] == v0.direct[j]);
            assert(dpos1[j - base] == dpos[j - base]);
        }
    }
    assert forall|j: int| 0 <= j < base implies #[trigger] v1.direct[j] == blocks0[j] by {
        assert(v1.direct[j] == v0.direct[j]);
    }
    if v1.indirect.len() == 1 {
        let l1 = v1.indirect[0];
        assert forall|i: int| pbase <= i < l1.len() implies #[trigger] l1[i] == handed_out(m0, d0, ppos1[i - pbase]) by {
            if v0.indirect.len() == 1 && i < v0.indirect[0].len() {
                assert(l1[i] == v0.indirect[0][i]);
                assert(ppos1[i - pbase] == ppos[i - pbase]);
            }
        }
        assert forall|i: int| 0 <= i < pbase implies #[trigger] l1[i] == ptrs0[i] by {
            assert(l1[i] == v0.indirect[0][i]);
        }
    }
    assert forall|i: int| 0 <= i < dpos1.len() implies a0 <= #[trigger] dpos1[i] < u + 1 by {
        if i < dpos.len() {
            assert(dpos1[i] == dpos[i]);
        }
    }
    assert forall|i: int| 0 <= i < ppos1.len() implies a0 <= #[trigger] ppos1[i] < u + 1 by {
        if i < ppos.len() {
            assert(ppos1[i] == ppos[i]);
        }
    }
    assert forall|i: int, j: int| 0 <= i < j < dpos1.len() implies #[trigger] dpos1[i] < #[trigger] dpos1[j] by {
        if j < dpos.len() {
            assert(dpos[i] < dpos[j]);
        }
    }
    assert forall|i: int, j: int| 0 <= i < j < ppos1.len() implies #[trigger] ppos1[i] < #[trigger] ppos1[j] by {
        if j < ppos.len() {
            assert(ppos[i] < ppos[j]);
        }
    }
    assert forall|i: int, j: int| 0 <= i < dpos1.len() && 0 <= j < ppos1.len() implies #[trigger] dpos1[i] != #[trigger] ppos1[j] by {
        if i < dpos.len() && j < ppos.len() {
            assert(dpos[i] != ppos[j]);
        }
    }
    if w0.data_block_num > 0 {
        let idx = w0.data_block_index as int;
        assert forall|j: int, i: int| s0 <= j < idx && 0 <= i < BLOCK_SIZE implies
            #[trigger] dd1[v1.direct[j] as int][i] == appended_byte(d0, blocks0, bytes, size0, j, i) by {
            assert(v1.direct[j] == v0.direct[j]);
            assert(INODES_FREE_LIST < v0.direct[j]);
            assert(dd1[v0.direct[j] as int] == dd0[v0.direct[j] as int]);
        }
        assert forall|j: int| s0 <= j < idx implies (#[trigger] dd1[v1.direct[j] as int]).len() == BLOCK_SIZE by {
            assert(v1.direct[j] == v0.direct[j]);
            assert(INODES_FREE_LIST < v0.direct[j]);
            assert(dd1[v0.direct[j] as int] == dd0[v0.direct[j] as int]);
        }
    }
}

/// At the end of a write, flushing the current block and storing the metadata leave the file
/// with the bytes the write took in.
#[verifier::spinoff_prover]
proof fn lemma_append_done(
    w0: InodeWriteIter,
    w1: InodeWriteIter,
    m: MetaData,
    mm: MetaData,
    t0: Seq<(u32, InodeBlock)>,
    t1: Seq<(u32, InodeBlock)>,
    df0: Seq<Seq<u8>>,
    df1: Seq<Seq<u8>>,
    d2: Seq<Seq<u8>>,
    flushed_ok: bool,
    d0: Seq<Seq<u8>>,
    blocks0: Seq<u32>,
    ptrs0: Seq<u32>,
    size0: int,
    s0: int,
    x0: Inode,
    root: u32,
    e0: int,
    m0: MetaData,
    a0: int,
    dpos: Seq<int>,
    ppos: Seq<int>,
    bytes: Seq<u8>,
    written: int,
)
    requires
        appending(w0, m, t0, df0, d0, blocks0, ptrs0, size0, s0, x0, root, e0, m0, a0, dpos, ppos, bytes, written),
        w1.inumber == w0.inumber,
        w1.inode.data_manager is Some,
        w1.inode.data_manager.unwrap()@ == w0.inode.data_manager.unwrap()@,
        flushed_ok == (w0.data_block_num > 0 && w1.inode.data_manager.unwrap()@.direct.len() > 0),
        !flushed_ok ==> df1 == df0 && t1 == t0,
        ({
            let x = inode_at(t0, w0.inumber as int);
            let writes = !w0.aligned_to_block && !w0.flushed;
            let grows = writes && x.size + (w0.next_write_index - w0.counted_index) <= u32::MAX;
            let d1 = if writes { with_block(df0, w0.data_block_num, w0.curr_data_block@) } else { df0 };
            &&& flushed_ok && grows ==> table_sets_inode(t0, t1, w0.inumber as int, Inode { size: (x.size + (w0.next_write_index - w0.counted_index)) as u32, ..x })
            &&& flushed_ok && !grows ==> t1 == t0
            &&& flushed_ok ==> inode_written(w1, t1, d1, df1)
        }),
        stores_meta(df1, d2, mm, MetaPart::All),
    ensures
        ({
            let v = w0.inode.data_manager.unwrap()@;
            let x1 = inode_at(t1, w0.inumber as int);
            let b1 = file_blocks(d2, x1);
            &&& x1.size == size0 + written
            &&& in_table(t1, w0.inumber as int)
            &&& table_block(t1, w0.inumber as int) == e0
            &&& d2.len() == d0.len()
            &&& x1.data_block == root
            &&& pointer_levels(x1) == v.indirect.len()
            &&& x1.total_data_blocks + POINTERS_PER_BLOCK * POINTERS_PER_BLOCK <= u32::MAX + v.direct.len()
            &&& b1 == v.direct
            &&& level_blocks(d2, x1) == (if v.indirect.len() == 1 { v.indirect[0] } else { Seq::empty() })
            &&& forall|p: int| 0 <= p < size0 ==> #[trigger] file_byte(d2, b1, p) == file_byte(d0, blocks0, p)
                && can_read_at(d2, b1, x1.size as int, p) == can_read_at(d0, blocks0, size0, p)
            &&& forall|k: int| 0 <= k < written ==> #[trigger] file_byte(d2, b1, size0 + k) == bytes[k]
                && can_read_at(d2, b1, x1.size as int, size0 + k)
            &&& x1.size <= v.direct.len() * BLOCK_SIZE
        }),
{
    let inum = w0.inumber as int;
    let mv = w0.inode.data_manager.unwrap()@;
    let direct = mv.direct;
    let base = blocks0.len() as int;
    let idx = w0.data_block_index as int;
    let nwi = w0.next_write_index as int;
    let num = w0.data_block_num;
    let x = inode_at(t0, inum);
    let writes = !w0.aligned_to_block && !w0.flushed;
    let d1 = if writes { with_block(df0, num, w0.curr_data_block@) } else { df0 };
    let x1 = inode_at(t1, inum);
    let n = direct.len() as int;
    let good = true;
    lemma_append_apart(w0, m, t0, df0, d0, blocks0, ptrs0, size0, s0, x0, root, e0, m0, a0, dpos, ppos, bytes, written);
    let q = size0 - s0 * BLOCK_SIZE;
    assert(x1.data_block == root);
    assert(x1.size == size0 + written) by {
        if num > 0 {
            if w0.flushed && nwi == 0 && idx == s0 {
                assert(idx * BLOCK_SIZE == size0 + written);
                assert(q == 0) by (nonlinear_arith)
                    requires idx * BLOCK_SIZE == size0 + written, idx == s0, 0 <= written,
                        s0 * BLOCK_SIZE <= size0 < s0 * BLOCK_SIZE + BLOCK_SIZE, q == size0 - s0 * BLOCK_SIZE;
            }
        }
    }
    lemma_log_ppb_one(n as nat);
    assert forall|k: int| INODES_FREE_LIST < k < d2.len() implies #[trigger] d2[k] == df1[k] by {}
    // Every data block keeps what the flush wrote to it.
    assert forall|j: int| 0 <= j < n implies #[trigger] df1[direct[j] as int] == d1[direct[j] as int] by {
        if flushed_ok {
            if mv.indirect.len() == 1 {
                assert forall|i: int| 0 <= i < mv.indirect[0].len() implies #[trigger] mv.indirect[0][i] != direct[j] by {
                    assert(mv.indirect[0][i] != direct[j]);
                }
            }
            lemma_written_other(w1, t1, d1, df1, direct[j] as int);
        }
    }
    if good {
        assert(pointer_levels(x1) == mv.indirect.len());
        if flushed_ok {
            let de = choose|de: Seq<Seq<u8>>| #[trigger] crate::write_iter::agrees_off(de, d1, e0)
                && df1 == (if can_save(mv, d1.len()) { saved(de, mv) } else { de });
            assert(can_save(mv, d1.len()));
            assert(reloadable(mv, de.len()));
            law_save_then_reload(de, mv);
            assert(df1 == saved(de, mv));
            if mv.indirect.len() == 1 {
                let l0 = mv.indirect[0];
                assert(root_list(df1, root) == l0);
                assert forall|i: int| 0 <= i < root_list(df1, root).len() implies
                    #[trigger] df1[root_list(df1, root)[i] as int] == d2[root_list(df1, root)[i] as int] by {
                    assert(INODES_FREE_LIST < l0[i]);
                }
            }
            lemma_level_list_same(df1, d2, root, mv.indirect.len());
            assert(root_list(d2, root) == root_list(df1, root));
        } else {
            assert(num == 0);
            assert(loaded_pointers(df0, x) == mv);
            assert(x1 == x);
            if mv.indirect.len() == 1 {
                let l0 = mv.indirect[0];
                assert(level_chunks(df0, root, 1) == level_chunks(df0, root, 0) + chunks(level_list(df0, root, 0)));
                assert(chunks(root_list(df0, root)) == seq![l0]);
                lemma_chunks_one(root_list(df0, root), l0);
                assert forall|i: int| 0 <= i < root_list(df0, root).len() implies
                    #[trigger] df0[root_list(df0, root)[i] as int] == d2[root_list(df0, root)[i] as int] by {
                    assert(INODES_FREE_LIST < l0[i]);
                }
            }
            lemma_level_list_same(df0, d2, root, mv.indirect.len());
            assert(root_list(d2, root) == root_list(df0, root));
        }
        let b1 = file_blocks(d2, x1);
        assert(b1 == direct);
        // The current block is the last one the write took.
        assert forall|p: int| 0 <= p < size0 implies #[trigger] file_byte(d2, b1, p) == file_byte(d0, blocks0, p)
            && can_read_at(d2, b1, x1.size as int, p) == can_read_at(d0, blocks0, size0, p) by {
            let j = p / BLOCK_SIZE as int;
            let i = p % BLOCK_SIZE as int;
            assert(p == j * BLOCK_SIZE + i && 0 <= i < BLOCK_SIZE && 0 <= j <= s0) by (nonlinear_arith)
                requires 0 <= p < size0, s0 * BLOCK_SIZE <= size0 < s0 * BLOCK_SIZE + BLOCK_SIZE,
                    j == p / BLOCK_SIZE as int, i == p % BLOCK_SIZE as int;
            let b = blocks0[j];
            assert(b1[j] == b);
            assert(direct[j] == b);
            assert(d2[b as int] == df1[b as int]);
            if j < s0 {
                if writes && num < df0.len() && num > 0 {
                    assert(idx < n);
                    assert(direct[idx] != direct[j]);
                }
                assert(d1[b as int] == df0[b as int]);
                assert(df0[b as int] == d0[b as int]);
            } else if j < idx {
                // The partial block was written back with its old bytes in front.
                assert(df0[b as int][i] == appended_byte(d0, blocks0, bytes, size0, j, i));
                if writes && num < df0.len() && num > 0 {
                    assert(idx < n);
                    assert(direct[idx] != direct[j]);
                }
                assert(d1[b as int] == df0[b as int]);
            } else if writes {
                // The partial block is the current one, which holds its old bytes in front.
                assert(idx < n);
                assert(num == b);
                assert(i < nwi);
                assert(w0.curr_data_block@[i] == appended_byte(d0, blocks0, bytes, size0, j, i));
                assert(d1[num as int] == w0.curr_data_block@);
            } else {
                assert(d1[b as int] == df0[b as int]);
                assert(df0[b as int] == d0[b as int]);
            }
        }
        assert forall|k: int| 0 <= k < written implies #[trigger] file_byte(d2, b1, size0 + k) == bytes[k]
            && can_read_at(d2, b1, x1.size as int, size0 + k) by {
            let p = size0 + k;
            let j = p / BLOCK_SIZE as int;
            let i = p % BLOCK_SIZE as int;
            assert(num > 0);
            assert(p == j * BLOCK_SIZE + i && 0 <= i < BLOCK_SIZE) by (nonlinear_arith)
                requires j == p / BLOCK_SIZE as int, i == p % BLOCK_SIZE as int, p >= 0;
            assert(s0 <= j) by (nonlinear_arith)
                requires p == j * BLOCK_SIZE + i, 0 <= i < BLOCK_SIZE, s0 * BLOCK_SIZE <= size0, p >= size0;
            assert(j <= idx) by (nonlinear_arith)
                requires p == j * BLOCK_SIZE + i, 0 <= i < BLOCK_SIZE, idx * BLOCK_SIZE + nwi == size0 + written,
                    p < size0 + written, nwi <= BLOCK_SIZE, 0 <= nwi;
            assert(bytes[k] == appended_byte(d0, blocks0, bytes, size0, j, i));
            if j < idx {
                assert(j < n);
                let b = direct[j];
                if idx < n {
                    assert(direct[j] != direct[idx]);
                }
                assert(d2[b as int] == df1[b as int]);
                assert(df1[b as int] == d1[b as int]);
                assert(d1[b as int] == df0[b as int]);
                assert(df0[b as int][i] == appended_byte(d0, blocks0, bytes, size0, j, i));
            } else {
                assert(i < nwi) by (nonlinear_arith)
                    requires p == j * BLOCK_SIZE + i, j == idx, idx * BLOCK_SIZE + nwi == size0 + written, p < size0 + written;
                assert(idx < n);
                assert(!w0.flushed);
                assert(d1[num as int] == w0.curr_data_block@);
                assert(df1[num as int] == d1[num as int]);
                assert(d2[num as int] == df1[num as int]);
            }
        }
    }
    assert(x1.size <= n * BLOCK_SIZE + q) by {
        if num > 0 {
            assert(idx * BLOCK_SIZE + nwi <= n * BLOCK_SIZE) by (nonlinear_arith)
                requires
                    idx <= n,
                    idx == n ==> nwi == 0,
                    0 <= nwi <= BLOCK_SIZE,
            ;
        }
    }
}

/// A file of more than 1024 data blocks whose pointer level has as many blocks as they fill,
/// 1024 to a block, has `ptr_count` pointer blocks.
proof fn lemma_ptr_count(n: int, l: int)
    requires
        POINTERS_PER_BLOCK < n,
        (l - 1) * POINTERS_PER_BLOCK < n <= l * POINTERS_PER_BLOCK,
    ensures
        ptr_count(n) == l,
{
    let q = (n + POINTERS_PER_BLOCK - 1) / POINTERS_PER_BLOCK as int;
    assert(q == l) by (nonlinear_arith)
        requires
            q == (n + POINTERS_PER_BLOCK - 1) / POINTERS_PER_BLOCK as int,
            (l - 1) * POINTERS_PER_BLOCK < n <= l * POINTERS_PER_BLOCK,
    ;
}

/// A pointer level with no more blocks than the data blocks fill, plus one, has no more
/// blocks than a file of one data block more has at rest.
proof fn lemma_ptr_count_next(n: int, l: int)
    requires
        POINTERS_PER_BLOCK <= n,
        (l - 1) * POINTERS_PER_BLOCK <= n,
    ensures
        l <= ptr_count(n + 1),
{
    let q = (n + 1 + POINTERS_PER_BLOCK - 1) / POINTERS_PER_BLOCK as int;
    assert(l <= q) by (nonlinear_arith)
        requires
            q == (n + 1 + POINTERS_PER_BLOCK - 1) / POINTERS_PER_BLOCK as int,
            (l - 1) * POINTERS_PER_BLOCK <= n,
    ;
}

/// `ptr_count` does not go down as the file grows.
proof fn lemma_ptr_count_mono(a: int, b: int)
    requires
        0 <= a <= b,
    ensures
        0 <= ptr_count(a) <= ptr_count(b),
{
    if POINTERS_PER_BLOCK < a {
        assert((a + POINTERS_PER_BLOCK - 1) / POINTERS_PER_BLOCK as int <= (b + POINTERS_PER_BLOCK - 1) / POINTERS_PER_BLOCK as int)
            by (nonlinear_arith)
            requires
                a <= b,
        ;
    }
    if POINTERS_PER_BLOCK <= b {
        assert(0 <= (b + POINTERS_PER_BLOCK - 1) / POINTERS_PER_BLOCK as int) by (nonlinear_arith)
            requires
                0 <= b,
        ;
    }
}

/// The end of a write: flushing the current block and storing the metadata leave the file
/// system as `appended_parts` says, and, when all `length` bytes went in, the file can take
/// more bytes as `appends_cleanly` asks whenever it could take them after the `length` ones
/// before the write.
#[verifier::spinoff_prover]
#[verifier::rlimit(90)]
proof fn lemma_append_finish(
    w0: InodeWriteIter,
    w1: InodeWriteIter,
    m: MetaData,
    mm: MetaData,
    tf0: Seq<(u32, InodeBlock)>,
    t1: Seq<(u32, InodeBlock)>,
    df0: Seq<Seq<u8>>,
    df1: Seq<Seq<u8>>,
    d2: Seq<Seq<u8>>,
    flushed_ok: bool,
    d0: Seq<Seq<u8>>,
    t0: Seq<(u32, InodeBlock)>,
    inumber: int,
    blocks0: Seq<u32>,
    ptrs0: Seq<u32>,
    size0: int,
    s0: int,
    x0: Inode,
    root: u32,
    e0: int,
    m0: MetaData,
    a0: int,
    dpos: Seq<int>,
    ppos: Seq<int>,
    bytes: Seq<u8>,
    written: int,
    length: int,
)
    requires
        appending(w0, m, tf0, df0, d0, blocks0, ptrs0, size0, s0, x0, root, e0, m0, a0, dpos, ppos, bytes, written),
        w0.inumber == inumber,
        appends_cleanly_parts(m0, d0, t0, inumber, length),
        x0 == inode_at(t0, inumber),
        blocks0 == file_blocks(d0, x0),
        ptrs0 == level_blocks(d0, x0),
        size0 == x0.size,
        e0 == table_block(t0, inumber),
        a0 == (if x0.data_block == 0 { 1int } else { 0 }),
        a0 == 0 ==> root == x0.data_block,
        bytes.len() == length,
        written <= length,
        written < length ==> exhausted(pool_of(m)),
        written < length ==> w0.data_block_num == 0 || w0.data_block_index == w0.inode.data_manager.unwrap()@.direct.len(),
        w0.data_block_num > 0 && w0.data_block_index < w0.inode.data_manager.unwrap()@.direct.len() && w0.next_write_index == 0
            ==> written == 0 && w0.inode.data_manager.unwrap()@.direct.len() == blocks0.len(),
        written == length ==> at_rest(w0.inode.data_manager.unwrap()@) || (w0.inode.data_manager.unwrap()@.indirect.len() == 0
            && w0.inode.data_manager.unwrap()@.direct.len() == POINTERS_PER_BLOCK),
        w1.inumber == w0.inumber,
        w1.inode.data_manager is Some,
        w1.inode.data_manager.unwrap()@ == w0.inode.data_manager.unwrap()@,
        flushed_ok == (w0.data_block_num > 0 && w1.inode.data_manager.unwrap()@.direct.len() > 0),
        !flushed_ok ==> df1 == df0 && t1 == tf0,
        ({
            let x = inode_at(tf0, w0.inumber as int);
            let writes = !w0.aligned_to_block && !w0.flushed;
            let grows = writes && x.size + (w0.next_write_index - w0.counted_index) <= u32::MAX;
            let d1 = if writes { with_block(df0, w0.data_block_num, w0.curr_data_block@) } else { df0 };
            &&& flushed_ok && grows ==> table_sets_inode(tf0, t1, w0.inumber as int, Inode { size: (x.size + (w0.next_write_index - w0.counted_index)) as u32, ..x })
            &&& flushed_ok && !grows ==> t1 == tf0
            &&& flushed_ok ==> inode_written(w1, t1, d1, df1)
        }),
        stores_meta(df1, d2, mm, MetaPart::All),
        mm.superblock == m.superblock,
        mm.root_free_list == m.root_free_list,
    ensures
        appended_parts(m0, d0, t0, mm, d2, t1, inumber, bytes, written),
        written == length ==> forall|more: int|
            0 <= more && #[trigger] appends_cleanly_parts(m0, d0, t0, inumber, length + more)
            ==> appends_cleanly_parts(mm, d2, t1, inumber, more),
{
    lemma_append_done(w0, w1, m, mm, tf0, t1, df0, df1, d2, flushed_ok, d0, blocks0, ptrs0, size0, s0, x0, root, e0, m0, a0,
        dpos, ppos, bytes, written);
    let v = w0.inode.data_manager.unwrap()@;
    let n = v.direct.len() as int;
    let base = blocks0.len() as int;
    let pbase = ptrs0.len() as int;
    let idx = w0.data_block_index as int;
    let nwi = w0.next_write_index as int;
    let u = a0 + dpos.len() + ppos.len();
    let x1 = inode_at(t1, inumber);
    let left = blocks_left(m0, d0);
    lemma_took_same(m0, d0, m, mm, u);
    // The blocks still to be handed out are as they were: the flush writes the current block,
    // the pointer blocks, the top pointer block and the inode table block, and the metadata go
    // to their own blocks.
    let writes = !w0.aligned_to_block && !w0.flushed;
    if flushed_ok {
        lemma_append_kept(w0, w1, m, tf0, t1, df0, df1, d0, blocks0, ptrs0, size0, s0, x0, root, e0, m0, a0, dpos, ppos, bytes, written, writes);
    }
    assert forall|k: int| u <= k < left implies d2[#[trigger] handed_out(m0, d0, k)] == d0[handed_out(m0, d0, k)] by {
        assert(df1[handed_out(m0, d0, k)] == d0[handed_out(m0, d0, k)]);
    }
    lemma_pool_shift(m0, d0, mm, d2, u);
    assert(continues(m0, d0, mm, d2, u));
    if written < length {
        assert(u == left) by {
            if u < left {
                assert(!exhausted(pool_after(m0, d0, u)));
            }
        }
    }
    // The file had as many pointer blocks as its data blocks at rest ask for.
    if pointer_levels(x0) == 1 {
        lemma_ptr_count(base, pbase);
    } else {
        assert(pbase == 0);
        assert(ptr_count(base) == 0);
    }
    // The file ends up with as many data blocks as it had, or as the bytes written from its
    // start block fill, whichever is more.
    let q = size0 - s0 * BLOCK_SIZE;
    let added = (q + written + BLOCK_SIZE - 1) / BLOCK_SIZE as int;
    assert(x0.size as int / BLOCK_SIZE as int == s0 && x0.size as int % BLOCK_SIZE as int == q) by (nonlinear_arith)
        requires
            x0.size == s0 * BLOCK_SIZE + q,
            0 <= q < BLOCK_SIZE,
    ;
    assert(n == (if s0 + added > base { s0 + added } else { base })) by {
        if w0.data_block_num == 0 {
            assert(n == base && written == 0 && s0 == base && q == 0);
        } else if idx == n {
            assert(added == n - s0) by (nonlinear_arith)
                requires
                    n * BLOCK_SIZE == s0 * BLOCK_SIZE + q + written,
                    added == (q + written + BLOCK_SIZE - 1) / BLOCK_SIZE as int,
            ;
        } else if nwi == 0 {
            assert(written == 0 && n == base);
            assert(q == 0) by (nonlinear_arith)
                requires
                    idx * BLOCK_SIZE == s0 * BLOCK_SIZE + q,
                    0 <= q < BLOCK_SIZE,
            ;
        } else {
            assert(added == idx + 1 - s0) by (nonlinear_arith)
                requires
                    idx * BLOCK_SIZE + nwi == s0 * BLOCK_SIZE + q + written,
                    1 <= nwi <= BLOCK_SIZE,
                    added == (q + written + BLOCK_SIZE - 1) / BLOCK_SIZE as int,
            ;
        }
    }
    if written < length {
        assert(n * BLOCK_SIZE == size0 + written);
        assert((q + written) % BLOCK_SIZE as int == 0 && added == n - s0) by (nonlinear_arith)
            requires
                n * BLOCK_SIZE == s0 * BLOCK_SIZE + q + written,
                added == (q + written + BLOCK_SIZE - 1) / BLOCK_SIZE as int,
        ;
        if v.indirect.len() == 1 {
            lemma_ptr_count_next(n, v.indirect[0].len() as int);
        } else {
            lemma_ptr_count_mono(base, n + 1);
        }
    }
    if written == length {
        if v.indirect.len() == 1 {
            lemma_ptr_count(n, v.indirect[0].len() as int);
        } else {
            assert(ptr_count(n) == 0);
        }
    }
}

/// How many bytes a write of `length` bytes from position `offset` of data of `data_len` bytes
/// takes: the write is cut at the end of the data.
pub open spec fn write_len(data_len: nat, offset: int, length: int) -> int {
    if offset + length > data_len { data_len - offset } else { length }
}

impl FileSystem {
    /// Appends the bytes `data[offset .. offset + length]`, cut at the end of `data`, to the end
    /// of file `inumber`, taking
    /// a block for the top level of its data pointers when it has none, and new data blocks from
    /// the free-block list as the file grows. Returns the number of bytes appended (fewer than
    /// `length` when no block is left), or -1 when not mounted, when the inode table has no
    /// block for the file, or when no block is left for the top level of its data pointers.
    #[verifier::spinoff_prover]
    #[verifier::rlimit(30)]
    pub fn write(&mut self, inumber: usize, data: &Vec<u8>, length: usize, offset: usize) -> (r: i64)
        requires
            old(self).wf(),
            offset <= data@.len(),
            length <= i64::MAX,
        ensures
            final(self).wf(),
            final(self).is_mounted() == old(self).is_mounted(),
            !(old(self).is_mounted() && in_table(old(self).inode_table.unwrap()@, inumber as int)) ==> r == -1 && *final(self) == *old(self),
            r == -1 || 0 <= r <= write_len(data@.len(), offset as int, length as int),
            r == -1 ==> !(old(self).is_mounted() && in_table(old(self).inode_table.unwrap()@, inumber as int))
                || inode_at(old(self).inode_table.unwrap()@, inumber as int).data_block == 0,
            old(self).is_mounted() && in_table(old(self).inode_table.unwrap()@, inumber as int) ==> (r == -1 <==>
                inode_at(old(self).inode_table.unwrap()@, inumber as int).data_block == 0
                && allocation(old(self).meta_data.unwrap(), old(self).disk.unwrap()@) <= 0),
            old(self).is_mounted() ==> final(self).disk.unwrap()@.len() == old(self).disk.unwrap()@.len()
                && final(self).inode_table.unwrap()@.len() == old(self).inode_table.unwrap()@.len(),
            appends_cleanly(*old(self), inumber as int, write_len(data@.len(), offset as int, length as int)) ==>
                appended(*old(self), *final(self), inumber as int, data@.subrange(offset as int, offset + write_len(data@.len(), offset as int, length as int)), r as int),
            r == write_len(data@.len(), offset as int, length as int) ==> forall|more: int|
                0 <= more && #[trigger] appends_cleanly(*old(self), inumber as int, write_len(data@.len(), offset as int, length as int) + more)
                ==> appends_cleanly(*final(self), inumber as int, more),
    {
        let length: usize = if length > data.len() - offset { data.len() - offset } else { length };
        let ghost ok = appends_cleanly(*self, inumber as int, length as int);
        match (&mut self.meta_data, &mut self.disk, &mut self.inode_table) {
            (Some(meta_data), Some(disk), Some(inode_table)) => {
                if !has_inode_slot(inode_table, inumber) {
                    return -1;
                }
                let ghost d0 = disk@;
                let ghost t0 = inode_table@;
                let ghost m0 = *meta_data;
                let ghost x0 = inode_at(t0, inumber as int);
                let ghost blocks0 = file_blocks(d0, x0);
                let ghost ptrs0 = level_blocks(d0, x0);
                let ghost e0 = table_block(t0, inumber as int);
                let ghost size0 = x0.size as int;
                let ghost s0 = size0 / BLOCK_SIZE as int;
                proof {
                    if ok {
                        assert(s0 * BLOCK_SIZE <= size0 < s0 * BLOCK_SIZE + BLOCK_SIZE) by (nonlinear_arith)
                            requires
                                0 <= size0,
                                s0 == size0 / BLOCK_SIZE as int,
                        ;
                        assert(s0 <= blocks0.len() && (size0 > s0 * BLOCK_SIZE ==> s0 < blocks0.len())) by (nonlinear_arith)
                            requires
                                size0 <= blocks0.len() * BLOCK_SIZE,
                                s0 * BLOCK_SIZE <= size0 < s0 * BLOCK_SIZE + BLOCK_SIZE,
                        ;
                    }
                }
                let ghost bytes = data@.subrange(offset as int, offset + length);
                let mut writer = InodeWriteIter::new(inumber, disk, inode_table);
                let ghost mut root: u32 = x0.data_block;
                let ghost mut a0: int = 0;
                let ghost mut dpos: Seq<int> = Seq::empty();
                let ghost mut ppos: Seq<int> = Seq::empty();
                proof {
                    if ok {
                        lemma_log_ppb_one(blocks0.len());
                        if x0.data_block > 0 {
                            lemma_zero_prefix_nonzero(d0[x0.data_block as int]);
                            if pointer_levels(x0) == 1 {
                                assert(level_chunks(d0, x0.data_block, 1) == level_chunks(d0, x0.data_block, 0)
                                    + chunks(level_list(d0, x0.data_block, 0)));
                                assert(level_chunks(d0, x0.data_block, 1) == seq![ptrs0]);
                            }
                        }
                    }
                }
                if !writer.has_datablock(inode_table) {
                    let mut block_mgr = BlockManager::new(*meta_data);
                    let root_blk = block_mgr.allocate_free_block(disk);
                    *meta_data = block_mgr.meta_data;
                    proof {
                        lemma_allocation(m0, d0, root_blk, *meta_data, disk@);
                        if ok {
                            assert(took(m0, d0, m0, 0));
                            lemma_take_next(m0, d0, m0, 0, d0, root_blk, *meta_data, disk@);
                        }
                    }
                    if !writer.set_data_block(meta_data, inode_table, disk, root_blk) {
                        return -1;
                    }
                    proof {
                        root = root_blk as u32;
                        a0 = 1;
                        if ok {
                            lemma_pointer_block(Seq::<u32>::empty());
                            assert(root_list(disk@, root) == Seq::<u32>::empty());
                        }
                    }
                } else {
                    proof {
                        if ok {
                            assert(took(m0, d0, *meta_data, 0));
                        }
                    }
                }
                proof {
                    if ok {
                        assert(appending(writer, *meta_data, inode_table@, disk@, d0, blocks0, ptrs0, size0, s0, x0, root, e0, m0, a0, dpos, ppos, bytes, 0));
                    }
                }
                let mut written: usize = 0;
                while written < length
                    invariant_except_break
                        ok ==> writer.data_block_num > 0 ==> writer.data_block_index < writer.inode.data_manager.unwrap()@.direct.len(),
                        ok ==> at_rest(writer.inode.data_manager.unwrap()@) || (writer.inode.data_manager.unwrap()@.indirect.len() == 0
                            && writer.inode.data_manager.unwrap()@.direct.len() == POINTERS_PER_BLOCK),
                    invariant
                        written <= length,
                        offset + length <= data.len(),
                        length <= i64::MAX,
                        INODES_FREE_LIST < disk@.len(),
                        write_ready(writer, inode_table@, disk@),
                        writer.inumber == inumber,
                        disk@.len() == d0.len(),
                        inode_table@.len() == t0.len(),
                        bytes.len() == length,
                        bytes == data@.subrange(offset as int, offset + length),
                        ok ==> appending(writer, *meta_data, inode_table@, disk@, d0, blocks0, ptrs0, size0, s0, x0, root, e0, m0, a0, dpos, ppos, bytes, written as int),
                        ok ==> writer.data_block_num > 0 && writer.data_block_index < writer.inode.data_manager.unwrap()@.direct.len()
                            && writer.next_write_index == 0 ==> written == 0 && writer.inode.data_manager.unwrap()@.direct.len() == blocks0.len(),
                        ok ==> a0 == (if x0.data_block == 0 { 1int } else { 0 }),
                        ok ==> a0 == 0 ==> root == x0.data_block,
                    ensures
                        ok && written < length ==> exhausted(pool_of(*meta_data)),
                        ok && written < length ==> writer.data_block_num == 0
                            || writer.data_block_index == writer.inode.data_manager.unwrap()@.direct.len(),
                        ok && written == length ==> at_rest(writer.inode.data_manager.unwrap()@)
                            || (writer.inode.data_manager.unwrap()@.indirect.len() == 0
                            && writer.inode.data_manager.unwrap()@.direct.len() == POINTERS_PER_BLOCK),
                    decreases length - written,
                {
                    let ghost w0 = writer;
                    let ghost ta = inode_table@;
                    let ghost da = disk@;
                    let ghost ma = *meta_data;
                    proof {
                        assert(bytes[written as int] == data@[offset + written]);
                    }
                    let (ok1, _) = writer.write_byte(meta_data, inode_table, disk, data[offset + written]);
                    proof {
                        if ok {
                            if w0.data_block_num == 0 {
                                lemma_append_same(writer, ma, *meta_data, inode_table@, disk@, d0, blocks0, ptrs0, size0, s0, x0, root, e0, m0, a0, dpos, ppos, bytes, written as int);
                            } else if w0.next_write_index < BLOCK_SIZE {
                                lemma_append_byte(w0, writer, ma, *meta_data, inode_table@, disk@, d0, blocks0, ptrs0, size0, s0, x0, root, e0, m0, a0, dpos, ppos, bytes, written as int);
                            } else if w0.data_block_index + 1 < w0.inode.data_manager.unwrap()@.direct.len() {
                                lemma_append_next(w0, writer, ma, *meta_data, ta, inode_table@, da, disk@, d0, blocks0, ptrs0, size0, s0, x0, root, e0, m0, a0, dpos, ppos, bytes, written as int);
                            } else {
                                lemma_append_flush(w0, writer, ma, *meta_data, ta, inode_table@, da, disk@, d0, blocks0, ptrs0, size0, s0, x0, root, e0, m0, a0, dpos, ppos, bytes, written as int);
                            }
                        }
                    }
                    if !ok1 {
                        let mut steps: usize = 0;
                        let mut recorded = false;
                        while steps < MAX_POINTER_STEPS
                            invariant_except_break
                                !recorded,
                                ok ==> writer.data_block_num == 0 || writer.data_block_index == writer.inode.data_manager.unwrap()@.direct.len(),
                                ok ==> steps + pending_pointers(writer.inode.data_manager.unwrap()@) <= 2,
                            invariant
                                INODES_FREE_LIST < disk@.len(),
                                write_ready(writer, inode_table@, disk@),
                                writer.inumber == inumber,
                                disk@.len() == d0.len(),
                                inode_table@.len() == t0.len(),
                                written < length,
                                offset + length <= data.len(),
                                bytes.len() == length,
                                bytes == data@.subrange(offset as int, offset + length),
                                recorded ==> writer.next_write_index == 0 && writer.inode.data_manager is Some
                                    && writer.inode.data_manager.unwrap()@.direct.len() > 0,
                                ok ==> appending(writer, *meta_data, inode_table@, disk@, d0, blocks0, ptrs0, size0, s0, x0, root, e0, m0, a0, dpos, ppos, bytes, written as int),
                            ensures
                                ok && !recorded ==> exhausted(pool_of(*meta_data)),
                                ok && !recorded ==> writer.data_block_num == 0
                                    || writer.data_block_index == writer.inode.data_manager.unwrap()@.direct.len(),
                                ok && recorded ==> writer.data_block_num > 0
                                    && writer.data_block_index == writer.inode.data_manager.unwrap()@.direct.len() - 1,
                                ok && recorded ==> at_rest(writer.inode.data_manager.unwrap()@)
                                    || (writer.inode.data_manager.unwrap()@.indirect.len() == 0
                                    && writer.inode.data_manager.unwrap()@.direct.len() == POINTERS_PER_BLOCK),
                            decreases MAX_POINTER_STEPS - steps,
                        {
                            let ghost ws = writer;
                            let ghost ts = inode_table@;
                            let ghost ds = disk@;
                            let ghost ms = *meta_data;
                            let ghost u = a0 + dpos.len() + ppos.len();
                            let mut block_mgr = BlockManager::new(*meta_data);
                            let blk = block_mgr.allocate_free_block(disk);
                            *meta_data = block_mgr.meta_data;
                            proof {
                                if ok {
                                    lemma_take_next(m0, d0, ms, u, ds, blk, *meta_data, disk@);
                                }
                            }
                            if blk <= 0 {
                                break;
                            }
                            let ghost dm = disk@;
                            let ghost mm = *meta_data;
                            let r = writer.add_data_blk(inode_table, blk);
                            proof {
                                assert forall|k: int| 0 <= k < inode_table@.len() implies (#[trigger] inode_table@[k]).0 < disk@.len() by {
                                }
                                if ok {
                                    lemma_append_add(ws, writer, ms, mm, ts, inode_table@, ds, dm, d0, blocks0, ptrs0, size0, s0, x0, root, e0,
                                        m0, a0, dpos, ppos, bytes, written as int, blk, r);
                                    if r == 0 {
                                        dpos = dpos.push(u);
                                    } else {
                                        ppos = ppos.push(u);
                                    }
                                }
                            }
                            if r == 0 {
                                recorded = true;
                                break;
                            }
                            if r < 0 {
                                break;
                            }
                            steps += 1;
                        }
                        if !recorded {
                            break;
                        }
                        let ghost w2 = writer;
                        let ghost m2 = *meta_data;
                        let (ok2, _) = writer.write_byte(meta_data, inode_table, disk, data[offset + written]);
                        if !ok2 {
                            break;
                        }
                        proof {
                            if ok {
                                lemma_append_byte(w2, writer, m2, *meta_data, inode_table@, disk@, d0, blocks0, ptrs0, size0, s0, x0, root, e0, m0, a0, dpos, ppos, bytes, written as int);
                            }
                        }
                    }
                    written += 1;
                }
                let ghost wf0 = writer;
                let ghost tf0 = inode_table@;
                let ghost df0 = disk@;
                let ghost mf0 = *meta_data;
                let flushed_ok = writer.flush(meta_data, inode_table, disk);
                let ghost df1 = disk@;
                save_meta_data(meta_data, disk, MetaPart::All);
                proof {
                    if ok {
                        lemma_append_finish(wf0, writer, mf0, *meta_data, tf0, inode_table@, df0, df1, disk@, flushed_ok,
                            d0, t0, inumber as int, blocks0, ptrs0, size0, s0, x0, root, e0, m0, a0, dpos, ppos, bytes, written as int, length as int);
                    }
                    if written == length {
                        assert forall|more: int| 0 <= more && appends_cleanly_parts(m0, d0, t0, inumber as int, length + more)
                            implies appends_cleanly_parts(*meta_data, disk@, inode_table@, inumber as int, more) by {
                            assert(appends_cleanly_parts(m0, d0, t0, inumber as int, length as int));
                        }
                    }
                }
                written as i64
            },
            _ => -1,
        }
    }

    /// Sets the size of file `inumber` to `byte_offset`: a smaller size is recorded in its inode
    /// and written to the disk (its block of the inode table; every other block stays, so the
    /// bytes before `byte_offset` read as they did); a larger one appends zero bytes up to it, in pieces of
    /// `BUFFER_SIZE` bytes. Does nothing when not mounted or when the inode table has no block
    /// for the file.
    #[verifier::spinoff_prover]
    #[verifier::rlimit(40)]
    pub fn truncate(&mut self, inumber: usize, byte_offset: usize)
        requires
            old(self).wf(),
        ensures
            final(self).wf(),
            final(self).is_mounted() == old(self).is_mounted(),
            !(old(self).is_mounted() && in_table(old(self).inode_table.unwrap()@, inumber as int)) ==> *final(self) == *old(self),
            old(self).is_mounted() && in_table(old(self).inode_table.unwrap()@, inumber as int)
                && byte_offset <= inode_at(old(self).inode_table.unwrap()@, inumber as int).size ==> {
                let t0 = old(self).inode_table.unwrap()@;
                let t1 = final(self).inode_table.unwrap()@;
                let d0 = old(self).disk.unwrap()@;
                let d1 = final(self).disk.unwrap()@;
                let e = t1[crate::utility::table_index(inumber as int)];
                &&& table_sets_inode(t0, t1, inumber as int, Inode { size: byte_offset as u32, ..inode_at(t0, inumber as int) })
                &&& d1.len() == d0.len()
                &&& encodes_inode_block(d1[e.0 as int], e.1)
                &&& forall|k: int| 0 <= k < d0.len() && k != e.0 ==> #[trigger] d1[k] == d0[k]
            },
            byte_offset <= inode_at(old(self).inode_table.unwrap()@, inumber as int).size
                && appends_cleanly(*old(self), inumber as int, 0) ==> {
                let x0 = inode_at(old(self).inode_table.unwrap()@, inumber as int);
                let d0 = old(self).disk.unwrap()@;
                let d1 = final(self).disk.unwrap()@;
                let b0 = file_blocks(d0, x0);
                &&& file_blocks(d1, inode_at(final(self).inode_table.unwrap()@, inumber as int)) == b0
                &&& forall|p: int| 0 <= p < byte_offset ==> #[trigger] same_byte(d1, b0, byte_offset as int, d0, b0, x0.size as int, p)
            },
            old(self).is_mounted() && in_table(old(self).inode_table.unwrap()@, inumber as int)
                && byte_offset > inode_at(old(self).inode_table.unwrap()@, inumber as int).size
                && grows_cleanly(*old(self), inumber as int, byte_offset - inode_at(old(self).inode_table.unwrap()@, inumber as int).size)
                ==> grown(*old(self), *final(self), inumber as int, byte_offset as int),
    {
        let ghost fs0 = *self;
        let size = self.stat(inumber);
        if size < 0 {
            return;
        }
        let size = size as usize;
        if byte_offset <= size {
            match (&mut self.meta_data, &mut self.disk, &mut self.inode_table) {
                (Some(meta_data), Some(disk), Some(inode_table)) => {
                    let (i, j) = ((inumber - 1) / INODES_IN_BLOCK, (inumber - 1) % INODES_IN_BLOCK);
                    let ghost t0 = inode_table@;
                    inode_table[i].1.inodes[j].size = byte_offset as u32;
                    proof {
                        assert forall|k: int| 0 <= k < inode_table@.len() implies (#[trigger] inode_table@[k]).0 < disk@.len() by {
                            assert(inode_table@[k].0 == t0[k].0);
                        }
                    }
                    let ghost d0 = disk@;
                    let mut inode = InodeProxy::new(inumber);
                    inode.save(inode_table, meta_data, disk);
                    proof {
                        if appends_cleanly(fs0, inumber as int, 0) {
                            let x0 = inode_at(t0, inumber as int);
                            let x1 = inode_at(inode_table@, inumber as int);
                            let b0 = file_blocks(d0, x0);
                            let e0 = table_block(t0, inumber as int);
                            assert(x1 == Inode { size: byte_offset as u32, ..x0 });
                            if x0.data_block > 0 {
                                let ptrs = level_blocks(d0, x0);
                                if pointer_levels(x0) == 1 {
                                    assert forall|i: int| 0 <= i < root_list(d0, x0.data_block).len() implies
                                        #[trigger] d0[root_list(d0, x0.data_block)[i] as int] == disk@[root_list(d0, x0.data_block)[i] as int] by {
                                        assert(ptrs[i] != e0);
                                    }
                                }
                                lemma_level_list_same(d0, disk@, x0.data_block, pointer_levels(x0));
                            }
                            assert(file_blocks(disk@, x1) == b0);
                            assert forall|p: int| 0 <= p < byte_offset implies #[trigger] same_byte(disk@, b0, byte_offset as int, d0, b0, x0.size as int, p) by {
                                let j = p / BLOCK_SIZE as int;
                                if readable(d0, b0, j) {
                                    assert(b0[j] != e0);
                                }
                            }
                        }
                    }
                },
                _ => {},
            }
        } else {
            let ghost x0 = inode_at(fs0.inode_table.unwrap()@, inumber as int);
            let ghost d0 = fs0.disk.unwrap()@;
            let ghost b0 = file_blocks(d0, x0);
            let ghost g = grows_cleanly(fs0, inumber as int, byte_offset - x0.size);
            let ghost src = Seq::new((byte_offset - size) as nat, |i: int| 0u8);
            let mut len = byte_offset - size;
            let zeros: Vec<u8> = vec![0u8; BUFFER_SIZE];
            proof {
                assert forall|i: int| 0 <= i < zeros@.len() implies #[trigger] zeros@[i] == 0u8 by {
                    assert(vstd::pervasive::cloned(0u8, zeros@[i]));
                }
                assert(src.take(0) =~= Seq::<u8>::empty());
            }
            loop
                invariant_except_break
                    g ==> grows_cleanly(*self, inumber as int, len as int),
                    g ==> filled_with(x0, d0, b0, *self, inumber as int, src.take(src.len() - len)),
                invariant
                    self.wf(),
                    self.is_mounted() == fs0.is_mounted(),
                    fs0.is_mounted(),
                    in_table(fs0.inode_table.unwrap()@, inumber as int),
                    zeros@.len() == BUFFER_SIZE,
                    forall|i: int| 0 <= i < zeros@.len() ==> #[trigger] zeros@[i] == 0u8,
                    x0 == inode_at(fs0.inode_table.unwrap()@, inumber as int),
                    d0 == fs0.disk.unwrap()@,
                    b0 == file_blocks(d0, x0),
                    g == grows_cleanly(fs0, inumber as int, byte_offset - x0.size),
                    len <= src.len(),
                    src == Seq::new((byte_offset - size) as nat, |i: int| 0u8),
                ensures
                    self.wf(),
                    self.is_mounted() == fs0.is_mounted(),
                    g ==> filled_with(x0, d0, b0, *self, inumber as int, src),
                decreases len,
            {
                let ghost fs1 = *self;
                let ghost done = src.len() - len;
                let n = if len < BUFFER_SIZE { len } else { BUFFER_SIZE };
                let w = self.write(inumber, &zeros, n, 0);
                proof {
                    if g {
                        assert(zeros@.subrange(0, n as int) =~= src.subrange(done, done + n));
                        lemma_fill_step(fs1, *self, inumber as int, len as int, n as int, w as int, src, x0, d0, b0);
                        if len < BUFFER_SIZE {
                            assert(src.take(done + n) =~= src);
                        }
                    }
                }
                if len < BUFFER_SIZE {
                    break;
                }
                len -= BUFFER_SIZE;
            }
            proof {
                assert(fs0 == *old(self));
            }
        }
    }
}

/// Byte `p` of the file with data blocks `b1` and size `s1` on the disk `d1` reads as it did in
/// the file with data blocks `b0` and size `s0` on the disk `d0`.
pub open spec fn same_byte(d1: Seq<Seq<u8>>, b1: Seq<u32>, s1: int, d0: Seq<Seq<u8>>, b0: Seq<u32>, s0: int, p: int) -> bool {
    file_byte(d1, b1, p) == file_byte(d0, b0, p) && can_read_at(d1, b1, s1, p) == can_read_at(d0, b0, s0, p)
}

/// Byte `p` of the file with data blocks `b` and size `s` on the disk `d` can be read and is
/// byte `p - start` of `src`.
pub open spec fn src_byte(d: Seq<Seq<u8>>, b: Seq<u32>, s: int, start: int, src: Seq<u8>, p: int) -> bool {
    file_byte(d, b, p) == src[p - start] && can_read_at(d, b, s, p)
}

/// File `inumber` of `fs` holds what the file with inode `x0` and data blocks `b0` held on the
/// disk `d0`, followed by the bytes `src`, all of which can be read.
pub open spec fn filled_with(x0: Inode, d0: Seq<Seq<u8>>, b0: Seq<u32>, fs: FileSystem, inumber: int, src: Seq<u8>) -> bool {
    let x = inode_at(fs.inode_table.unwrap()@, inumber);
    let d = fs.disk.unwrap()@;
    let b = file_blocks(d, x);
    &&& x.size == x0.size + src.len()
    &&& forall|p: int| 0 <= p < x0.size ==> #[trigger] same_byte(d, b, x.size as int, d0, b0, x0.size as int, p)
    &&& forall|p: int| x0.size <= p < x.size ==> #[trigger] src_byte(d, b, x.size as int, x0.size as int, src, p)
}

/// File `inumber` went from `fs0` to `fs1` by having the bytes `src` appended: its earlier bytes
/// stayed, and the new ones read as `src`.
pub open spec fn appended_all(fs0: FileSystem, fs1: FileSystem, inumber: int, src: Seq<u8>) -> bool {
    let x0 = inode_at(fs0.inode_table.unwrap()@, inumber);
    let d0 = fs0.disk.unwrap()@;
    filled_with(x0, d0, file_blocks(d0, x0), fs1, inumber, src)
}

/// File `inumber` grew from `fs0` to `fs1` to `size` bytes: its earlier bytes stayed, and the
/// new ones read as zeros.
pub open spec fn grown(fs0: FileSystem, fs1: FileSystem, inumber: int, size: int) -> bool {
    appended_all(fs0, fs1, inumber, Seq::new((size - inode_at(fs0.inode_table.unwrap()@, inumber).size) as nat, |i: int| 0u8))
}

/// File `inumber` of `fs` can take `len` more bytes as `appends_cleanly` asks, and blocks are
/// left for them: for a top pointer block
/// when the file has none, for the new data blocks that the bytes fill from the block where the
/// file ends, and for the pointer blocks these need.
pub open spec fn grows_cleanly(fs: FileSystem, inumber: int, len: int) -> bool {
    let m = fs.meta_data.unwrap();
    let x = inode_at(fs.inode_table.unwrap()@, inumber);
    let n0 = file_blocks(fs.disk.unwrap()@, x).len() as int;
    let s0 = x.size as int / BLOCK_SIZE as int;
    let q = x.size as int % BLOCK_SIZE as int;
    let added = (q + len + BLOCK_SIZE - 1) / BLOCK_SIZE as int;
    let n1 = if s0 + added > n0 { s0 + added } else { n0 };
    &&& appends_cleanly(fs, inumber, len)
    &&& blocks_left(m, fs.disk.unwrap()@) >= (if x.data_block == 0 { 1int } else { 0 }) + (n1 - n0) + ptr_count(n1) - ptr_count(n0)
}

/// One write of the next `n` bytes of `src` while appending it to a file with room for the
/// `len` bytes still to come writes all `n`, and the file can still take the rest.
#[verifier::spinoff_prover]
#[verifier::rlimit(30)]
pub proof fn lemma_fill_step(
    fs1: FileSystem,
    fs2: FileSystem,
    inumber: int,
    len: int,
    n: int,
    w: int,
    src: Seq<u8>,
    x0: Inode,
    d0: Seq<Seq<u8>>,
    b0: Seq<u32>,
)
    requires
        grows_cleanly(fs1, inumber, len),
        0 <= len <= src.len(),
        n == if len < BUFFER_SIZE { len } else { BUFFER_SIZE as int },
        w == -1 || 0 <= w <= n,
        appends_cleanly(fs1, inumber, n) ==> appended(fs1, fs2, inumber, src.subrange(src.len() - len, src.len() - len + n), w),
        w == n ==> forall|more: int|
            0 <= more && #[trigger] appends_cleanly(fs1, inumber, n + more) ==> appends_cleanly(fs2, inumber, more),
        fs2.is_mounted(),
        filled_with(x0, d0, b0, fs1, inumber, src.take(src.len() - len)),
    ensures
        w == n,
        n == BUFFER_SIZE ==> grows_cleanly(fs2, inumber, len - n),
        filled_with(x0, d0, b0, fs2, inumber, src.take(src.len() - len + n)),
{
    let m1 = fs1.meta_data.unwrap();
    let m2 = fs2.meta_data.unwrap();
    let xa = inode_at(fs1.inode_table.unwrap()@, inumber);
    let xb = inode_at(fs2.inode_table.unwrap()@, inumber);
    let da = fs1.disk.unwrap()@;
    let db = fs2.disk.unwrap()@;
    let ba = file_blocks(da, xa);
    let bb = file_blocks(db, xb);
    let n0 = ba.len() as int;
    let sa = xa.size as int / BLOCK_SIZE as int;
    let q = xa.size as int % BLOCK_SIZE as int;
    let done = src.len() - len;
    let chunk = src.subrange(done, done + n);
    let root_new: int = if xa.data_block == 0 { 1 } else { 0 };
    let a = (q + len + BLOCK_SIZE - 1) / BLOCK_SIZE as int;
    let n1 = if sa + a > n0 { sa + a } else { n0 };
    assert(appends_cleanly(fs1, inumber, n));
    lemma_ptr_count_mono(n0, n1);
    if w == -1 {
        assert(blocks_left(m1, da) >= 1);
        assert(false);
    }
    if w < n {
        let k = (q + w) / BLOCK_SIZE as int;
        assert(q + w == k * BLOCK_SIZE && k + 1 <= a) by (nonlinear_arith)
            requires
                k == (q + w) / BLOCK_SIZE as int,
                (q + w) % BLOCK_SIZE as int == 0,
                0 <= q,
                0 <= w < n <= len,
                a == (q + len + BLOCK_SIZE - 1) / BLOCK_SIZE as int,
        ;
        assert((q + w + BLOCK_SIZE - 1) / BLOCK_SIZE as int == k) by (nonlinear_arith)
            requires
                q + w == k * BLOCK_SIZE,
                0 <= k,
        ;
        lemma_ptr_count_mono(sa + k + 1, n1);
        assert(false);
    }
    assert(w == n);
    if n == BUFFER_SIZE {
        let a1 = (q + n + BLOCK_SIZE - 1) / BLOCK_SIZE as int;
        let nb = if sa + a1 > n0 { sa + a1 } else { n0 };
        assert(1 <= a1 <= a && a1 <= 2) by (nonlinear_arith)
            requires
                a1 == (q + n + BLOCK_SIZE - 1) / BLOCK_SIZE as int,
                a == (q + len + BLOCK_SIZE - 1) / BLOCK_SIZE as int,
                n == BLOCK_SIZE,
                n <= len,
                0 <= q < BLOCK_SIZE,
        ;
        lemma_ptr_count_mono(nb, n1);
        assert(continues(m1, da, m2, db, root_new + (nb - n0) + ptr_count(nb) - ptr_count(n0)));
        assert(bb.len() == nb);
        assert(appends_cleanly(fs1, inumber, n + (len - n)));
        assert(appends_cleanly(fs2, inumber, len - n));
        assert(xb.size == xa.size + n);
        assert(xb.size as int / BLOCK_SIZE as int == sa + 1 && xb.size as int % BLOCK_SIZE as int == q) by (nonlinear_arith)
            requires
                xb.size == xa.size + n,
                n == BLOCK_SIZE,
                sa == xa.size as int / BLOCK_SIZE as int,
                q == xa.size as int % BLOCK_SIZE as int,
        ;
        assert(bb.len() > 0);
        assert(xb.data_block != 0);
        assert((q + (len - n) + BLOCK_SIZE - 1) / BLOCK_SIZE as int == a - 1) by (nonlinear_arith)
            requires
                a == (q + len + BLOCK_SIZE - 1) / BLOCK_SIZE as int,
                n == BLOCK_SIZE,
                n <= len,
        ;
        if pointer_levels(xa) == 1 {
            assert(pointer_levels(xb) == 1) by {
                if pointer_levels(xb) == 0 {
                    assert(bb.len() < POINTERS_PER_BLOCK);
                }
            }
        }
    }
    let after = src.take(done + n);
    assert forall|p: int| 0 <= p < x0.size implies #[trigger] same_byte(db, bb, xb.size as int, d0, b0, x0.size as int, p) by {
        assert(file_byte(db, bb, p) == file_byte(da, ba, p));
        assert(same_byte(da, ba, xa.size as int, d0, b0, x0.size as int, p));
    }
    assert forall|p: int| x0.size <= p < xb.size implies #[trigger] src_byte(db, bb, xb.size as int, x0.size as int, after, p) by {
        if p < xa.size {
            assert(file_byte(db, bb, p) == file_byte(da, ba, p));
            assert(src_byte(da, ba, xa.size as int, x0.size as int, src.take(done), p));
        } else {
            let k = p - xa.size;
            assert(file_byte(db, bb, xa.size + k) == chunk[k]);
        }
    }
}

/// One write of the next `n` bytes of `src` while appending it to a file that can take the
/// `len` bytes still to come as `appends_cleanly` asks: when it fails, the file system is as it
/// was, the file had no top pointer block and no block was left; else the file reads on with
/// the bytes the write took, and when these are fewer than `n` no block is left; when it
/// takes all `n`, the file can still take the rest.
#[verifier::spinoff_prover]
#[verifier::rlimit(30)]
pub proof fn lemma_copy_step(
    fs1: FileSystem,
    fs2: FileSystem,
    inumber: int,
    len: int,
    n: int,
    w: int,
    src: Seq<u8>,
    x0: Inode,
    d0: Seq<Seq<u8>>,
    b0: Seq<u32>,
)
    requires
        appends_cleanly(fs1, inumber, len),
        0 <= len <= src.len(),
        n == if len < BUFFER_SIZE { len } else { BUFFER_SIZE as int },
        w == -1 || 0 <= w <= n,
        appends_cleanly(fs1, inumber, n) ==> appended(fs1, fs2, inumber, src.subrange(src.len() - len, src.len() - len + n), w),
        w == n ==> forall|more: int|
            0 <= more && #[trigger] appends_cleanly(fs1, inumber, n + more) ==> appends_cleanly(fs2, inumber, more),
        fs2.is_mounted(),
        filled_with(x0, d0, b0, fs1, inumber, src.take(src.len() - len)),
    ensures
        w == -1 ==> inode_at(fs1.inode_table.unwrap()@, inumber).data_block == 0
            && blocks_left(fs2.meta_data.unwrap(), fs2.disk.unwrap()@) == 0
            && filled_with(x0, d0, b0, fs2, inumber, src.take(src.len() - len)),
        w >= 0 ==> filled_with(x0, d0, b0, fs2, inumber, src.take(src.len() - len + w)),
        0 <= w < n ==> blocks_left(fs2.meta_data.unwrap(), fs2.disk.unwrap()@) == 0,
        w > 0 ==> inode_at(fs2.inode_table.unwrap()@, inumber).data_block != 0,
        w == n ==> appends_cleanly(fs2, inumber, len - n),
{
    let m1 = fs1.meta_data.unwrap();
    let m2 = fs2.meta_data.unwrap();
    let xa = inode_at(fs1.inode_table.unwrap()@, inumber);
    let xb = inode_at(fs2.inode_table.unwrap()@, inumber);
    let da = fs1.disk.unwrap()@;
    let db = fs2.disk.unwrap()@;
    let ba = file_blocks(da, xa);
    let bb = file_blocks(db, xb);
    let done = src.len() - len;
    let chunk = src.subrange(done, done + n);
    assert(appends_cleanly(fs1, inumber, n));
    if w == -1 {
        assert(filled_with(x0, d0, b0, fs2, inumber, src.take(done)));
    } else {
        let sa = xa.size as int / BLOCK_SIZE as int;
        let q = xa.size as int % BLOCK_SIZE as int;
        let added = (q + w + BLOCK_SIZE - 1) / BLOCK_SIZE as int;
        if w > 0 {
            assert(added >= 1) by (nonlinear_arith)
                requires
                    added == (q + w + BLOCK_SIZE - 1) / BLOCK_SIZE as int,
                    0 <= q,
                    w > 0,
            ;
            assert(bb.len() > 0);
        }
        if w < n {
            assert(continues(m1, da, m2, db, blocks_left(m1, da)));
        }
        if w == n {
            assert(appends_cleanly(fs1, inumber, n + (len - n)));
        }
        let after = src.take(done + w);
        assert forall|p: int| 0 <= p < x0.size implies #[trigger] same_byte(db, bb, xb.size as int, d0, b0, x0.size as int, p) by {
            assert(file_byte(db, bb, p) == file_byte(da, ba, p));
            assert(same_byte(da, ba, xa.size as int, d0, b0, x0.size as int, p));
        }
        assert forall|p: int| x0.size <= p < xb.size implies #[trigger] src_byte(db, bb, xb.size as int, x0.size as int, after, p) by {
            if p < xa.size {
                assert(file_byte(db, bb, p) == file_byte(da, ba, p));
                assert(src_byte(da, ba, xa.size as int, x0.size as int, src.take(done), p));
            } else {
                let k = p - xa.size;
                assert(file_byte(db, bb, xa.size + k) == chunk[k]);
            }
        }
    }
}

/// A file with no data can take bytes as `appends_cleanly` asks when no block has been given
/// back yet: the blocks allocations hand out are the never-used ones after those in use, so
/// none of them is the file's block of the inode table, which was handed out before.
pub proof fn law_empty_file_appends_cleanly(m: MetaData, d: Seq<Seq<u8>>, t: Seq<(u32, InodeBlock)>, inumber: int, length: int)
    requires
        m.superblock.free_blocks == 0,
        INODES_FREE_LIST < m.superblock.current_block_index <= m.superblock.blocks <= d.len(),
        in_table(t, inumber),
        table_block(t, inumber) < m.superblock.current_block_index,
        inode_at(t, inumber).data_block == 0,
        inode_at(t, inumber).size == 0,
        inode_at(t, inumber).total_data_blocks == 0,
        pointer_levels(inode_at(t, inumber)) == 0,
        0 <= length <= (POINTERS_PER_BLOCK * POINTERS_PER_BLOCK - 1) * BLOCK_SIZE,
    ensures
        appends_cleanly_parts(m, d, t, inumber, length),
{
    let x = inode_at(t, inumber);
    let e0 = table_block(t, inumber);
    law_fresh_pool_in_order(m, d);
    let left = blocks_left(m, d);
    let cur = m.superblock.current_block_index as int;
    crate::block::lemma_fresh_runs_out(m, d);
    assert(file_blocks(d, x) =~= Seq::<u32>::empty());
    assert(level_blocks(d, x) =~= Seq::<u32>::empty());
    assert forall|k1: int, k2: int| 0 <= k1 < k2 < left implies #[trigger] handed_out(m, d, k1) != #[trigger] handed_out(m, d, k2) by {
        assert(handed_out(m, d, k1) == cur + k1);
        assert(handed_out(m, d, k2) == cur + k2);
    }
    assert forall|k: int| 0 <= k < left implies INODES_FREE_LIST < #[trigger] handed_out(m, d, k) < d.len()
        && handed_out(m, d, k) != e0 && handed_out(m, d, k) != x.data_block as int by {
        assert(handed_out(m, d, k) == cur + k);
    }
}

/// Reading from where a write began gives back what it appended: when the file reads `bytes`
/// from position `start` on (as `write` leaves it) and `read` is asked for `n` of them from
/// there, it returns all `n`, and they are the first `n` of `bytes`.
pub proof fn law_file_read_after_write(
    d: Seq<Seq<u8>>,
    blocks: Seq<u32>,
    size: int,
    start: int,
    bytes: Seq<u8>,
    n: int,
    got: int,
    out: Seq<u8>,
)
    requires
        0 <= start,
        forall|k: int| 0 <= k < bytes.len() ==> #[trigger] file_byte(d, blocks, start + k) == bytes[k]
            && can_read_at(d, blocks, size, start + k),
        0 <= n <= bytes.len(),
        0 <= got <= n,
        out.len() >= got,
        forall|k: int| 0 <= k < got ==> #[trigger] out[k] == file_byte(d, blocks, start + k),
        got < n ==> !can_read_at(d, blocks, size, start + got),
    ensures
        got == n,
        forall|k: int| 0 <= k < n ==> #[trigger] out[k] == bytes[k],
{
    if got < n {
        assert(file_byte(d, blocks, start + got) == bytes[got]);
        assert(can_read_at(d, blocks, size, start + got));
    }
    assert forall|k: int| 0 <= k < n implies #[trigger] out[k] == bytes[k] by {
        assert(file_byte(d, blocks, start + k) == bytes[k]);
    }
}

/// A disk that `format` wrote holds the magic number, so `mount` of it succeeds.
pub proof fn law_format_then_mount(d: Seq<Seq<u8>>)
    requires
        holds_superblock(d[0], formatted_superblock(d.len())),
    ensures
        spec_superblock(d[0]).magic_number == MAGIC_NUMBER as u32,
{
}
} // verus!
