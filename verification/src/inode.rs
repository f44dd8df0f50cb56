use vstd::prelude::*;
use crate::block::{Block, InodeBlock, encodes_inode_block, spec_inode};
use crate::codec::{le_u32, zero_block};
use crate::constants::{INODES_IN_BLOCK, INODES_ROOT_BLOCK};
use crate::block::MetaData;
use crate::data_ptr::{InodeDataPointer, DataPointerView, adds_block, can_save, level_chunks, level_list, log_ppb, saved};
use crate::disk::Disk;
use crate::utility::{InodeTable, table_index, table_sets_inode, table_slot};

verus! {

/// An inode as the inode table stores it.
#[derive(Copy, Clone, Debug)]
pub struct Inode {
    pub valid: u32,
    pub size: u32,
    pub ctime: u32,
    pub atime: u32,
    pub blk_pointer_level: u32,
    pub level_index: u32,
    pub data_block: u32,
    pub total_data_blocks: u32,
}

} // verus!

verus! {

impl Inode {
    /// A valid inode of an empty file with no data blocks, at pointer level 1: direct pointers.
    pub fn blank() -> (r: Inode)
        ensures
            r == (Inode {
                valid: 1,
                size: 0,
                ctime: 0,
                atime: 0,
                blk_pointer_level: 1,
                level_index: 0,
                data_block: 0,
                total_data_blocks: 0,
            }),
    {
        Inode {
            valid: 1,
            size: 0,
            atime: 0,
            ctime: 0,
            blk_pointer_level: 1,
            level_index: 0,
            total_data_blocks: 0,
            data_block: 0,
        }
    }

    /// The inode that `blank` gives.
    pub open spec fn blank_spec() -> Inode {
        Inode {
            valid: 1,
            size: 0,
            ctime: 0,
            atime: 0,
            blk_pointer_level: 1,
            level_index: 0,
            data_block: 0,
            total_data_blocks: 0,
        }
    }

    /// Moves the level index from 1 to 2 or from 2 to 3; any other level index stays and the result is false.
    pub fn increase_level(&mut self) -> (r: bool)
        ensures
            r == (old(self).level_index == 1 || old(self).level_index == 2),
            final(self).level_index == if r { old(self).level_index + 1 } else { old(self).level_index as int },
            *final(self) == (Inode { level_index: final(self).level_index, ..*old(self) }),
    {
        match self.level_index {
            1 => {
                self.level_index = 2;
            },
            2 => {
                self.level_index = 3;
            },
            _ => {
                return false;
            },
        };
        return true;
    }

    /// The pointer level of the inode's data blocks.
    pub fn pointer_level(&self) -> (r: u32)
        ensures
            r == self.blk_pointer_level,
    {
        self.blk_pointer_level
    }
}

/// The inode whose words are all zero.
pub open spec fn zero_inode() -> Inode {
    Inode {
        valid: 0,
        size: 0,
        ctime: 0,
        atime: 0,
        blk_pointer_level: 0,
        level_index: 0,
        data_block: 0,
        total_data_blocks: 0,
    }
}

impl InodeBlock {
    /// The inode block that a zero block holds: all inodes, links and spare words are zero.
    pub fn new() -> (r: InodeBlock)
        ensures
            encodes_inode_block(zero_block(), r),
            forall|k: int| 0 <= k < INODES_IN_BLOCK ==> #[trigger] r.inodes@[k] == zero_inode(),
            r.next_block == 0,
            r.prev_block == 0,
            forall|t: int| 0 <= t < 6 ==> #[trigger] r.temp@[t] == 0,
    {
        let r = Block::new().inode_block();
        proof {
            assert forall|k: int| 0 <= k < INODES_IN_BLOCK implies #[trigger] r.inodes@[k] == zero_inode() by {
                assert(r.inodes@[k] == spec_inode(zero_block(), 32 * k));
            }
            assert forall|t: int| 0 <= t < 6 implies #[trigger] r.temp@[t] == 0 by {
                assert(r.temp@[t] == le_u32(zero_block(), 4072 + 4 * t));
            }
        }
        r
    }

    /// A block that holds this inode block.
    pub fn as_block(self) -> (r: Block)
        ensures
            encodes_inode_block(r@, self),
    {
        let mut block = Block::new();
        block.set_inode_block(self);
        block
    }

    /// A zero inode block whose first inode is `inode`.
    pub fn from_inode(inode: Inode) -> (r: InodeBlock)
        ensures
            r.inodes@[0] == inode,
            forall|k: int| 1 <= k < INODES_IN_BLOCK ==> #[trigger] r.inodes@[k] == zero_inode(),
            r.next_block == 0,
            r.prev_block == 0,
            forall|t: int| 0 <= t < 6 ==> #[trigger] r.temp@[t] == 0,
    {
        let mut inode_blk = Self::new();
        inode_blk.inodes[0] = inode;
        inode_blk
    }
}

} // verus!

verus! {

/// The inode `inumber` of the inode table `t`.
pub open spec fn inode_at(t: Seq<(u32, InodeBlock)>, inumber: int) -> Inode {
    t[table_index(inumber)].1.inodes@[table_slot(inumber)]
}

/// The inode table `t` has a block for inode `inumber`.
pub open spec fn in_table(t: Seq<(u32, InodeBlock)>, inumber: int) -> bool {
    1 <= inumber && table_index(inumber) < t.len()
}

/// Whether the inode table has a block for inode `inumber`.
pub fn has_inode_slot(inode_table: &InodeTable, inumber: usize) -> (r: bool)
    ensures
        r == in_table(inode_table@, inumber as int),
{
    inumber >= 1 && (inumber - 1) / INODES_IN_BLOCK < inode_table.len()
}

/// Every block of the inode table `t` lies on a disk of `disk_len` blocks.
pub open spec fn table_in_disk(t: Seq<(u32, InodeBlock)>, disk_len: nat) -> bool {
    forall|k: int| 0 <= k < t.len() ==> (#[trigger] t[k]).0 < disk_len
}

/// How many levels of pointer blocks lie between the root block of inode `x` and its data
/// blocks: its pointer level counts from 1 for direct pointers (0 reads as 1 too).
pub open spec fn pointer_levels(x: Inode) -> nat {
    if x.blk_pointer_level == 0 { 0 } else { (x.blk_pointer_level - 1) as nat }
}

/// The pointer level an inode records for the data pointers `v`: 1 for direct pointers, one
/// more for each level of pointer blocks.
pub open spec fn stored_level(v: DataPointerView) -> u32 {
    if v.indirect.len() < u32::MAX { (v.indirect.len() + 1) as u32 } else { u32::MAX }
}

/// The number of pointer levels below the root block for the pointer level `level`.
pub fn levels_below(level: u32) -> (r: usize)
    ensures
        r == (if level == 0 { 0 } else { level - 1 }),
{
    if level == 0 { 0 } else { (level - 1) as usize }
}

/// The pointers that the inode `inode` leads to on the disk `d`.
pub open spec fn loaded_pointers(d: Seq<Seq<u8>>, inode: Inode) -> DataPointerView {
    DataPointerView {
        direct: level_list(d, inode.data_block, pointer_levels(inode)),
        indirect: level_chunks(d, inode.data_block, pointer_levels(inode)),
        root: inode.data_block,
    }
}

/// Access to one inode of the inode table, with its data pointers once they are read.
pub struct InodeProxy {
    pub inumber: usize,
    pub data_manager: Option<InodeDataPointer>,
}

impl InodeProxy {
    pub fn new(inumber: usize) -> (r: InodeProxy)
        ensures
            r.inumber == inumber,
            r.data_manager is None,
    {
        InodeProxy { inumber, data_manager: None }
    }

    fn get_index(&self) -> (r: (usize, usize))
        requires
            self.inumber >= 1,
        ensures
            r.0 == table_index(self.inumber as int),
            r.1 == table_slot(self.inumber as int),
    {
        ((self.inumber - 1) / INODES_IN_BLOCK, (self.inumber - 1) % INODES_IN_BLOCK)
    }

    /// Size in bytes of the file.
    pub fn size(&self, inode_table: &InodeTable) -> (r: u32)
        requires
            in_table(inode_table@, self.inumber as int),
        ensures
            r == inode_at(inode_table@, self.inumber as int).size,
    {
        let (i, j) = self.get_index();
        inode_table[i].1.inodes[j].size
    }

    /// Block that holds the top level of the data pointers.
    pub fn data_block(&self, inode_table: &InodeTable) -> (r: u32)
        requires
            in_table(inode_table@, self.inumber as int),
        ensures
            r == inode_at(inode_table@, self.inumber as int).data_block,
    {
        let (i, j) = self.get_index();
        inode_table[i].1.inodes[j].data_block
    }

    /// Number of pointer levels above the data blocks.
    pub fn pointer_level(&self, inode_table: &InodeTable) -> (r: u32)
        requires
            in_table(inode_table@, self.inumber as int),
        ensures
            r == inode_at(inode_table@, self.inumber as int).blk_pointer_level,
    {
        let (i, j) = self.get_index();
        inode_table[i].1.inodes[j].blk_pointer_level
    }

    /// Whether the inode is in use.
    pub fn is_valid(&self, inode_table: &InodeTable) -> (r: bool)
        requires
            in_table(inode_table@, self.inumber as int),
        ensures
            r == (inode_at(inode_table@, self.inumber as int).valid != 0),
    {
        let (i, j) = self.get_index();
        inode_table[i].1.inodes[j].valid != 0
    }

    /// Number of data blocks of the file.
    pub fn total_data_blocks(&self, inode_table: &InodeTable) -> (r: u32)
        requires
            in_table(inode_table@, self.inumber as int),
        ensures
            r == inode_at(inode_table@, self.inumber as int).total_data_blocks,
    {
        let (i, j) = self.get_index();
        inode_table[i].1.inodes[j].total_data_blocks
    }

    /// The data blocks of the file; the data pointers are read from the disk the first time.
    pub fn data_blocks(&mut self, inode_table: &InodeTable, disk: &mut Disk) -> (r: Vec<u32>)
        requires
            in_table(inode_table@, old(self).inumber as int),
        ensures
            final(self).inumber == old(self).inumber,
            final(self).data_manager is Some,
            old(self).data_manager is Some ==> final(self).data_manager == old(self).data_manager,
            old(self).data_manager is None ==> final(self).data_manager.unwrap()@ == loaded_pointers(old(disk)@, inode_at(inode_table@, old(self).inumber as int)),
            r@ == final(self).data_manager.unwrap()@.direct,
            final(disk)@ == old(disk)@,
            final(disk).mount_count() == old(disk).mount_count(),
            final(disk).path_view() == old(disk).path_view(),
    {
        if self.data_manager.is_none() {
            let level = self.pointer_level(inode_table);
            let root = self.data_block(inode_table);
            let manager = InodeDataPointer::with_depth(levels_below(level), disk, root);
            self.data_manager = Some(manager);
        }
        match &self.data_manager {
            Some(m) => m.direct_ptrs.clone(),
            None => Vec::new(),
        }
    }

    /// The number of data blocks, reading the data pointers from the disk first when they are
    /// not read yet.
    pub fn data_block_count(&mut self, inode_table: &InodeTable, disk: &mut Disk) -> (r: usize)
        requires
            in_table(inode_table@, old(self).inumber as int),
        ensures
            final(self).inumber == old(self).inumber,
            final(self).data_manager is Some,
            old(self).data_manager is Some ==> final(self).data_manager == old(self).data_manager,
            old(self).data_manager is None ==> final(self).data_manager.unwrap()@ == loaded_pointers(old(disk)@, inode_at(inode_table@, old(self).inumber as int)),
            r == final(self).data_manager.unwrap()@.direct.len(),
            final(disk)@ == old(disk)@,
            final(disk).mount_count() == old(disk).mount_count(),
            final(disk).path_view() == old(disk).path_view(),
    {
        if self.data_manager.is_none() {
            let level = self.pointer_level(inode_table);
            let root = self.data_block(inode_table);
            let manager = InodeDataPointer::with_depth(levels_below(level), disk, root);
            self.data_manager = Some(manager);
        }
        match &self.data_manager {
            Some(m) => m.direct_ptrs.len(),
            None => 0,
        }
    }

    /// Data block `i` of the data pointers that were read.
    pub fn data_block_at(&self, i: usize) -> (r: u32)
        requires
            self.data_manager is Some,
            i < self.data_manager.unwrap()@.direct.len(),
        ensures
            r == self.data_manager.unwrap()@.direct[i as int],
    {
        match &self.data_manager {
            Some(m) => m.direct_ptrs[i],
            None => 0,
        }
    }

    /// Makes `blk` the block of the top level of the data pointers, with no data blocks yet.
    pub fn set_data_block(&mut self, inode_table: &mut InodeTable, blk: u32)
        requires
            in_table(old(inode_table)@, old(self).inumber as int),
        ensures
            final(self).inumber == old(self).inumber,
            table_sets_inode(old(inode_table)@, final(inode_table)@, old(self).inumber as int,
                Inode { data_block: blk, ..inode_at(old(inode_table)@, old(self).inumber as int) }),
            final(self).data_manager is Some,
            final(self).data_manager.unwrap()@ == (DataPointerView { direct: Seq::empty(), indirect: Seq::empty(), root: blk }),
    {
        let (i, j) = self.get_index();
        inode_table[i].1.inodes[j].data_block = blk;
        self.data_manager = Some(InodeDataPointer::new(blk));
        proof {
            let t0 = old(inode_table)@;
            assert(inode_table@[i as int].1.inodes@ =~= t0[i as int].1.inodes@.update(j as int,
                Inode { data_block: blk, ..inode_at(t0, self.inumber as int) }));
        }
    }

    /// Reads the data pointers from the disk; false when the inode has no pointer block.
    pub fn init_datablocks(&mut self, inode_table: &InodeTable, disk: &mut Disk) -> (r: bool)
        requires
            in_table(inode_table@, old(self).inumber as int),
        ensures
            final(self).inumber == old(self).inumber,
            r == (inode_at(inode_table@, old(self).inumber as int).data_block != 0),
            !r ==> final(self).data_manager == old(self).data_manager,
            r ==> final(self).data_manager is Some && final(self).data_manager.unwrap()@ == loaded_pointers(old(disk)@, inode_at(inode_table@, old(self).inumber as int)),
            final(disk)@ == old(disk)@,
            final(disk).mount_count() == old(disk).mount_count(),
            final(disk).path_view() == old(disk).path_view(),
    {
        if self.data_block(inode_table) == 0 {
            return false;
        }
        let b = self.data_block(inode_table);
        let level = self.pointer_level(inode_table);
        let manager = InodeDataPointer::with_depth(levels_below(level), disk, b);
        self.data_manager = Some(manager);
        true
    }

    /// Adds `amount` bytes to the size of the file.
    pub fn incr_size(&mut self, inode_table: &mut InodeTable, amount: usize)
        requires
            in_table(old(inode_table)@, old(self).inumber as int),
            inode_at(old(inode_table)@, old(self).inumber as int).size + (amount as u32) <= u32::MAX,
        ensures
            *final(self) == *old(self),
            table_sets_inode(old(inode_table)@, final(inode_table)@, old(self).inumber as int,
                Inode {
                    size: (inode_at(old(inode_table)@, old(self).inumber as int).size + (amount as u32)) as u32,
                    ..inode_at(old(inode_table)@, old(self).inumber as int)
                }),
    {
        let (i, j) = self.get_index();
        inode_table[i].1.inodes[j].size += amount as u32;
        proof {
            let t0 = old(inode_table)@;
            let x = inode_at(t0, self.inumber as int);
            assert(inode_table@[i as int].1.inodes@ =~= t0[i as int].1.inodes@.update(j as int,
                Inode { size: (x.size + (amount as u32)) as u32, ..x }));
        }
    }

    /// Adds `amount` to the count of data blocks of the file.
    pub fn incr_data_blocks(&mut self, inode_table: &mut InodeTable, amount: usize)
        requires
            in_table(old(inode_table)@, old(self).inumber as int),
            inode_at(old(inode_table)@, old(self).inumber as int).total_data_blocks + (amount as u32) <= u32::MAX,
        ensures
            *final(self) == *old(self),
            table_sets_inode(old(inode_table)@, final(inode_table)@, old(self).inumber as int,
                Inode {
                    total_data_blocks: (inode_at(old(inode_table)@, old(self).inumber as int).total_data_blocks + (amount as u32)) as u32,
                    ..inode_at(old(inode_table)@, old(self).inumber as int)
                }),
    {
        let (i, j) = self.get_index();
        inode_table[i].1.inodes[j].total_data_blocks += amount as u32;
        proof {
            let t0 = old(inode_table)@;
            let x = inode_at(t0, self.inumber as int);
            assert(inode_table@[i as int].1.inodes@ =~= t0[i as int].1.inodes@.update(j as int,
                Inode { total_data_blocks: (x.total_data_blocks + (amount as u32)) as u32, ..x }));
        }
    }

    /// Records block `blk` in the data pointers (starting from none when they were not read),
    /// sets the pointer level to one more than the levels of pointer blocks they have, and
    /// counts a new data block.
    /// Returns what `InodeDataPointer::add_data_block` returns.
    pub fn add_data_block(&mut self, inode_table: &mut InodeTable, blk: i64) -> (r: i64)
        requires
            in_table(old(inode_table)@, old(self).inumber as int),
            inode_at(old(inode_table)@, old(self).inumber as int).total_data_blocks < u32::MAX,
        ensures
            ({
                let x = inode_at(old(inode_table)@, old(self).inumber as int);
                let v0 = match old(self).data_manager {
                    Some(m) => m@,
                    None => DataPointerView { direct: Seq::empty(), indirect: Seq::empty(), root: x.data_block },
                };
                let v1 = final(self).data_manager.unwrap()@;
                &&& final(self).inumber == old(self).inumber
                &&& final(self).data_manager is Some
                &&& blk <= 0 ==> r == -1 && v1 == v0
                &&& blk > 0 ==> adds_block(v0, blk as u32, v1, r) && r >= 0
                &&& table_sets_inode(old(inode_table)@, final(inode_table)@, old(self).inumber as int,
                    Inode {
                        blk_pointer_level: stored_level(v1),
                        total_data_blocks: if r == 0 { (x.total_data_blocks + 1) as u32 } else { x.total_data_blocks },
                        ..x
                    })
            }),
    {
        if self.data_manager.is_none() {
            let root = self.data_block(inode_table);
            self.data_manager = Some(InodeDataPointer::new(root));
        }
        let mut manager = self.data_manager.take().unwrap();
        let r = manager.add_data_block(blk);
        let levels = manager.indirect_ptrs.len();
        let d: u32 = if levels < u32::MAX as usize { levels as u32 + 1 } else { u32::MAX };
        self.data_manager = Some(manager);
        let (i, j) = self.get_index();
        let ghost t0 = inode_table@;
        inode_table[i].1.inodes[j].blk_pointer_level = d;
        if r == 0 {
            inode_table[i].1.inodes[j].total_data_blocks += 1;
        }
        proof {
            let x = inode_at(t0, self.inumber as int);
            let v1 = self.data_manager.unwrap()@;
            assert(inode_table@[i as int].1.inodes@ =~= t0[i as int].1.inodes@.update(j as int,
                Inode {
                    blk_pointer_level: stored_level(v1),
                    total_data_blocks: if r == 0 { (x.total_data_blocks + 1) as u32 } else { x.total_data_blocks },
                    ..x
                }));
        }
        r
    }

    /// Writes the inode block that holds this inode to its block on the disk; when that is the
    /// root block of the inode table, its inodes are also copied to the metadata's root block.
    pub fn save(&mut self, inode_table: &InodeTable, meta_data: &mut MetaData, disk: &mut Disk) -> (r: bool)
        requires
            in_table(inode_table@, old(self).inumber as int),
            table_in_disk(inode_table@, old(disk)@.len()),
        ensures
            r,
            *final(self) == *old(self),
            ({
                let e = inode_table@[table_index(old(self).inumber as int)];
                &&& final(disk)@.len() == old(disk)@.len()
                &&& encodes_inode_block(final(disk)@[e.0 as int], e.1)
                &&& forall|k: int| 0 <= k < old(disk)@.len() && k != e.0 ==> #[trigger] final(disk)@[k] == old(disk)@[k]
                &&& e.0 == INODES_ROOT_BLOCK ==> {
                    &&& final(meta_data).superblock == old(meta_data).superblock
                    &&& final(meta_data).root_free_list == old(meta_data).root_free_list
                    &&& final(meta_data).inodes_free_list == old(meta_data).inodes_free_list
                    &&& forall|ib: InodeBlock| encodes_inode_block(old(meta_data).inodes_root_block@, ib) ==>
                        encodes_inode_block(final(meta_data).inodes_root_block@, InodeBlock { inodes: e.1.inodes, ..ib })
                }
                &&& e.0 != INODES_ROOT_BLOCK ==> *final(meta_data) == *old(meta_data)
            }),
            final(disk).mount_count() == old(disk).mount_count(),
            final(disk).path_view() == old(disk).path_view(),
    {
        let (i, _j) = self.get_index();
        let (block_num, inodeblock) = inode_table[i];
        proof {
            assert(inode_table@[i as int].0 < disk@.len());
        }
        let block = inodeblock.as_block();
        disk.write(block_num as usize, block.data_as_ref());
        if block_num as usize == INODES_ROOT_BLOCK {
            let mut root = meta_data.inodes_root_block.inode_block();
            let ghost old_root = root;
            root.inodes = inodeblock.inodes;
            meta_data.inodes_root_block.set_inode_block(root);
            proof {
                assert forall|ib: InodeBlock| encodes_inode_block(old(meta_data).inodes_root_block@, ib) implies
                    encodes_inode_block(meta_data.inodes_root_block@, InodeBlock { inodes: inodeblock.inodes, ..ib }) by {
                    crate::block::law_inode_block_bytes_determine_block(old(meta_data).inodes_root_block@, ib, old_root);
                }
            }
        }
        true
    }

    /// Stores the data pointers, when they were read and fit on the disk.
    pub fn save_data_blocks(&mut self, disk: &mut Disk)
        ensures
            final(self).inumber == old(self).inumber,
            final(self).data_manager is Some <==> old(self).data_manager is Some,
            old(self).data_manager is Some ==> final(self).data_manager.unwrap()@ == old(self).data_manager.unwrap()@,
            match old(self).data_manager {
                Some(m) => if can_save(m@, old(disk)@.len()) {
                    final(disk)@ == saved(old(disk)@, m@)
                } else {
                    final(disk)@ == old(disk)@
                },
                None => final(disk)@ == old(disk)@,
            },
            final(disk).mount_count() == old(disk).mount_count(),
            final(disk).path_view() == old(disk).path_view(),
    {
        match &mut self.data_manager {
            Some(data_manager) => {
                if data_manager.fits(disk.size()) {
                    data_manager.save(disk);
                }
            },
            None => {},
        }
    }

    /// The data blocks of the file as stored on the disk; none when it has no pointer block.
    pub fn to_direct_pointers(&mut self, inode_table: &InodeTable, disk: &mut Disk) -> (r: Vec<u32>)
        requires
            in_table(inode_table@, old(self).inumber as int),
        ensures
            *final(self) == *old(self),
            r@ == if inode_at(inode_table@, old(self).inumber as int).data_block > 0 {
                loaded_pointers(old(disk)@, inode_at(inode_table@, old(self).inumber as int)).direct
            } else {
                Seq::empty()
            },
            final(disk)@ == old(disk)@,
            final(disk).mount_count() == old(disk).mount_count(),
            final(disk).path_view() == old(disk).path_view(),
    {
        let b = self.data_block(inode_table);
        if b > 0 {
            let level = self.pointer_level(inode_table);
            InodeDataPointer::with_depth(levels_below(level), disk, b).blocks()
        } else {
            Vec::new()
        }
    }
}


/// The pointers of the levels `ind`, one level after the other.
pub open spec fn concat_levels(ind: Seq<Seq<u32>>) -> Seq<u32>
    decreases ind.len(),
{
    if ind.len() == 0 {
        Seq::empty()
    } else {
        concat_levels(ind.drop_last()) + ind.last()
    }
}

/// The blocks that file `x` uses on the disk `d`: none when it has no top pointer block, else
/// every block its pointers name (data blocks, pointer blocks, the top pointer block) that is
/// not null and lies on the disk.
pub open spec fn blocks_in_use(d: Seq<Seq<u8>>, x: Inode) -> Seq<u32> {
    if x.data_block == 0 {
        Seq::empty()
    } else {
        blocks_on_disk(all_blocks(loaded_pointers(d, x)), d.len())
    }
}

/// The block numbers of `s` that are not null and lie on a disk of `disk_len` blocks, in order.
pub open spec fn blocks_on_disk(s: Seq<u32>, disk_len: nat) -> Seq<u32>
    decreases s.len(),
{
    if s.len() == 0 {
        Seq::empty()
    } else {
        let rest = blocks_on_disk(s.drop_last(), disk_len);
        if 0 < s.last() < disk_len {
            rest.push(s.last())
        } else {
            rest
        }
    }
}

/// Every block that the pointers `v` use: data blocks, pointer blocks and the root block.
pub open spec fn all_blocks(v: DataPointerView) -> Seq<u32> {
    v.direct + concat_levels(v.indirect) + seq![v.root]
}

/// Keeping the blocks of `s` that lie on a disk of `disk_len` blocks loses none of them and
/// adds none: every block of `s` that is not null and lies on the disk is kept, and every block
/// kept is a block of `s` that is not null and lies on the disk.
pub proof fn law_blocks_on_disk(s: Seq<u32>, disk_len: nat)
    ensures
        forall|i: int| 0 <= i < s.len() && 0 < s[i] < disk_len ==> #[trigger] blocks_on_disk(s, disk_len).contains(s[i]),
        forall|k: int| 0 <= k < blocks_on_disk(s, disk_len).len() ==> s.contains(#[trigger] blocks_on_disk(s, disk_len)[k])
            && 0 < blocks_on_disk(s, disk_len)[k] < disk_len,
        blocks_on_disk(s, disk_len).len() <= s.len(),
    decreases s.len(),
{
    if s.len() > 0 {
        let t = s.drop_last();
        let rest = blocks_on_disk(t, disk_len);
        let r = blocks_on_disk(s, disk_len);
        law_blocks_on_disk(t, disk_len);
        assert forall|i: int| 0 <= i < s.len() && 0 < s[i] < disk_len implies #[trigger] r.contains(s[i]) by {
            if i == s.len() - 1 {
                assert(r[r.len() - 1] == s[i]);
            } else {
                assert(t[i] == s[i]);
                assert(rest.contains(t[i]));
                let k = choose|k: int| 0 <= k < rest.len() && rest[k] == s[i];
                assert(r[k] == rest[k]);
            }
        }
        assert forall|k: int| 0 <= k < r.len() implies s.contains(#[trigger] r[k]) && 0 < r[k] < disk_len by {
            if k < rest.len() {
                assert(r[k] == rest[k]);
                assert(t.contains(rest[k]));
                let i = choose|i: int| 0 <= i < t.len() && t[i] == rest[k];
                assert(s[i] == t[i]);
            } else {
                assert(r[k] == s.last());
                assert(s[s.len() - 1] == s.last());
            }
        }
    }
}

/// Every block of one of the levels `ind` is among their pointers taken one level after the
/// other.
proof fn lemma_concat_levels_has(ind: Seq<Seq<u32>>, j: int, k: int)
    requires
        0 <= j < ind.len(),
        0 <= k < ind[j].len(),
    ensures
        concat_levels(ind).contains(ind[j][k]),
    decreases ind.len(),
{
    let c = concat_levels(ind.drop_last());
    assert(concat_levels(ind) == c + ind.last());
    if j == ind.len() - 1 {
        assert(concat_levels(ind)[c.len() + k] == ind[j][k]);
    } else {
        assert(ind.drop_last()[j] == ind[j]);
        lemma_concat_levels_has(ind.drop_last(), j, k);
        let i = choose|i: int| 0 <= i < c.len() && c[i] == ind[j][k];
        assert(concat_levels(ind)[i] == ind[j][k]);
    }
}

/// Every pointer of the levels `ind` taken one level after the other is a block of one of them.
proof fn lemma_concat_levels_from(ind: Seq<Seq<u32>>, i: int)
    requires
        0 <= i < concat_levels(ind).len(),
    ensures
        exists|j: int, k: int| 0 <= j < ind.len() && 0 <= k < ind[j].len() && #[trigger] ind[j][k] == concat_levels(ind)[i],
    decreases ind.len(),
{
    let c = concat_levels(ind.drop_last());
    assert(concat_levels(ind) == c + ind.last());
    if i < c.len() {
        lemma_concat_levels_from(ind.drop_last(), i);
        let (j, k) = choose|j: int, k: int| 0 <= j < ind.drop_last().len() && 0 <= k < ind.drop_last()[j].len()
            && #[trigger] ind.drop_last()[j][k] == c[i];
        assert(ind[j] == ind.drop_last()[j]);
        assert(ind[j][k] == concat_levels(ind)[i]);
    } else {
        let j = ind.len() - 1;
        let k = i - c.len();
        assert(ind[j][k] == concat_levels(ind)[i]);
    }
}

/// The blocks that a file uses are its top pointer block, its data blocks and its pointer
/// blocks, as its pointers on the disk name them, each kept when it is not null and lies on the
/// disk: none of them is left out, and nothing else is in. A file with no top pointer block
/// uses none.
pub proof fn law_blocks_in_use(d: Seq<Seq<u8>>, x: Inode)
    ensures
        x.data_block == 0 ==> blocks_in_use(d, x).len() == 0,
        x.data_block != 0 ==> {
            let v = loaded_pointers(d, x);
            let r = blocks_in_use(d, x);
            &&& x.data_block < d.len() ==> r.contains(x.data_block)
            &&& forall|i: int| 0 <= i < v.direct.len() && 0 < v.direct[i] < d.len() ==> r.contains(#[trigger] v.direct[i])
            &&& forall|j: int, k: int| 0 <= j < v.indirect.len() && 0 <= k < v.indirect[j].len() && 0 < v.indirect[j][k] < d.len()
                ==> r.contains(#[trigger] v.indirect[j][k])
            &&& forall|q: int| 0 <= q < r.len() ==> 0 < #[trigger] r[q] < d.len() && (r[q] == x.data_block
                || v.direct.contains(r[q])
                || exists|j: int, k: int| 0 <= j < v.indirect.len() && 0 <= k < v.indirect[j].len() && #[trigger] v.indirect[j][k] == r[q])
        },
{
    if x.data_block != 0 {
        let v = loaded_pointers(d, x);
        let a = all_blocks(v);
        let c = concat_levels(v.indirect);
        let r = blocks_in_use(d, x);
        law_blocks_on_disk(a, d.len());
        assert(a == v.direct + c + seq![v.root]);
        assert(v.root == x.data_block);
        if x.data_block < d.len() {
            assert(a[a.len() - 1] == x.data_block);
        }
        assert forall|i: int| 0 <= i < v.direct.len() && 0 < v.direct[i] < d.len() implies r.contains(#[trigger] v.direct[i]) by {
            assert(a[i] == v.direct[i]);
        }
        assert forall|j: int, k: int| 0 <= j < v.indirect.len() && 0 <= k < v.indirect[j].len() && 0 < v.indirect[j][k] < d.len()
            implies r.contains(#[trigger] v.indirect[j][k]) by {
            lemma_concat_levels_has(v.indirect, j, k);
            let i = choose|i: int| 0 <= i < c.len() && c[i] == v.indirect[j][k];
            assert(a[v.direct.len() + i] == v.indirect[j][k]);
        }
        assert forall|q: int| 0 <= q < r.len() implies 0 < #[trigger] r[q] < d.len() && (r[q] == x.data_block
            || v.direct.contains(r[q])
            || exists|j: int, k: int| 0 <= j < v.indirect.len() && 0 <= k < v.indirect[j].len() && #[trigger] v.indirect[j][k] == r[q]) by {
            assert(a.contains(r[q]));
            let i = choose|i: int| 0 <= i < a.len() && a[i] == r[q];
            if i < v.direct.len() {
                assert(v.direct[i] == r[q]);
            } else if i < v.direct.len() + c.len() {
                assert(c[i - v.direct.len()] == r[q]);
                lemma_concat_levels_from(v.indirect, i - v.direct.len());
            } else {
                assert(r[q] == v.root);
            }
        }
    }
}

proof fn lemma_blocks_on_disk_bound(s: Seq<u32>, disk_len: nat)
    ensures
        blocks_on_disk(s, disk_len).len() <= s.len(),
        forall|k: int| 0 <= k < blocks_on_disk(s, disk_len).len() ==> #[trigger] blocks_on_disk(s, disk_len)[k] < disk_len,
    decreases s.len(),
{
    if s.len() > 0 {
        lemma_blocks_on_disk_bound(s.drop_last(), disk_len);
    }
}

/// Appends `v[..]` to `acc`.
fn append_all(acc: &mut Vec<u32>, v: &Vec<u32>)
    ensures
        final(acc)@ == old(acc)@ + v@,
{
    let mut k: usize = 0;
    while k < v.len()
        invariant
            k <= v@.len(),
            acc@ == old(acc)@ + v@.take(k as int),
        decreases v@.len() - k,
    {
        acc.push(v[k]);
        k += 1;
        assert(acc@ =~= old(acc)@ + v@.take(k as int));
    }
    assert(v@.take(k as int) =~= v@);
}

impl InodeProxy {
    /// Every block that the pointers of the file use and that lies on the disk: data blocks,
    /// pointer blocks and the top pointer block, read from the disk.
    fn pointer_blocks(&self, inode_table: &InodeTable, disk: &mut Disk) -> (r: Vec<u32>)
        requires
            in_table(inode_table@, self.inumber as int),
        ensures
            r@ == blocks_on_disk(all_blocks(loaded_pointers(old(disk)@, inode_at(inode_table@, self.inumber as int))), old(disk)@.len()),
            forall|k: int| 0 <= k < r@.len() ==> #[trigger] r@[k] < old(disk)@.len(),
            final(disk)@ == old(disk)@,
            final(disk).mount_count() == old(disk).mount_count(),
            final(disk).path_view() == old(disk).path_view(),
    {
        let root = self.data_block(inode_table);
        let level = self.pointer_level(inode_table);
        let manager = InodeDataPointer::with_depth(levels_below(level), disk, root);
        let mut all: Vec<u32> = Vec::new();
        append_all(&mut all, &manager.direct_ptrs);
        let mut i: usize = 0;
        let ghost base = all@;
        while i < manager.indirect_ptrs.len()
            invariant
                i <= manager@.indirect.len(),
                all@ == base + concat_levels(manager@.indirect.take(i as int)),
            decreases manager@.indirect.len() - i,
        {
            append_all(&mut all, &manager.indirect_ptrs[i]);
            proof {
                assert(manager@.indirect.take(i + 1).drop_last() =~= manager@.indirect.take(i as int));
                assert(all@ =~= base + concat_levels(manager@.indirect.take(i + 1)));
            }
            i += 1;
        }
        assert(manager@.indirect.take(i as int) =~= manager@.indirect);
        all.push(root);
        let ghost v = manager@;
        assert(all@ =~= all_blocks(v));
        let n = disk.size();
        let mut r: Vec<u32> = Vec::new();
        let mut k: usize = 0;
        while k < all.len()
            invariant
                k <= all@.len(),
                n == disk@.len(),
                r@ == blocks_on_disk(all@.take(k as int), n as nat),
            decreases all@.len() - k,
        {
            let b = all[k];
            if 0 < b && (b as usize) < n {
                r.push(b);
            }
            proof {
                assert(all@.take(k + 1).drop_last() =~= all@.take(k as int));
            }
            k += 1;
        }
        assert(all@.take(k as int) =~= all@);
        proof {
            lemma_blocks_on_disk_bound(all@, n as nat);
        }
        r
    }

    /// Gives up the data of the file: returns the blocks it uses (`blocks_in_use`), and leaves the
    /// inode with no data.
    pub fn deallocate_ptrs(&mut self, inode_table: &mut InodeTable, disk: &mut Disk) -> (r: Vec<u32>)
        requires
            in_table(old(inode_table)@, old(self).inumber as int),
        ensures
            final(self).inumber == old(self).inumber,
            final(self).data_manager is None,
            ({
                let x = inode_at(old(inode_table)@, old(self).inumber as int);
                &&& r@ == blocks_in_use(old(disk)@, x)
                &&& table_sets_inode(old(inode_table)@, final(inode_table)@, old(self).inumber as int,
                    Inode { size: 0, blk_pointer_level: 1, data_block: 0, total_data_blocks: 0, ..x })
            }),
            forall|k: int| 0 <= k < r@.len() ==> #[trigger] r@[k] < old(disk)@.len(),
            final(disk)@ == old(disk)@,
            final(disk).mount_count() == old(disk).mount_count(),
            final(disk).path_view() == old(disk).path_view(),
    {
        let root = self.data_block(inode_table);
        let r: Vec<u32> = if root == 0 { Vec::new() } else { self.pointer_blocks(inode_table, disk) };
        let (ti, tj) = self.get_index();
        let ghost t0 = inode_table@;
        inode_table[ti].1.inodes[tj].size = 0;
        inode_table[ti].1.inodes[tj].blk_pointer_level = 1;
        inode_table[ti].1.inodes[tj].data_block = 0;
        inode_table[ti].1.inodes[tj].total_data_blocks = 0;
        self.data_manager = None;
        proof {
            let x = inode_at(t0, self.inumber as int);
            assert(inode_table@[ti as int].1.inodes@ =~= t0[ti as int].1.inodes@.update(tj as int,
                Inode { size: 0, blk_pointer_level: 1, data_block: 0, total_data_blocks: 0, ..x }));
        }
        r
    }
}
} // verus!
