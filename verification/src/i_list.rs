use vstd::prelude::*;
use crate::block::{Block, BlockManager, InodeBlock, MetaData, Superblock, allocates, encodes_inode_block, frees, spec_pointers};
use crate::block::{allocation, allocation_from, first_zero_from, free_fold, lemma_allocation};
use crate::codec::{lemma_put_get, put_u32, zero_block};
use crate::constants::{BLOCK_SIZE, INODES_FREE_LIST, INODES_IN_BLOCK, INODES_PER_BLOCK, INODES_ROOT_BLOCK, POINTERS_PER_BLOCK, ROOT_FREE_LIST};
use crate::disk::Disk;
use crate::inode::{Inode, InodeProxy, has_inode_slot, in_table, inode_at, table_in_disk};
use crate::utility::{InodeTable, MetaPart, fetch_block, get_inode_block, set_inode, stores_meta, table_index, table_sets_inode};
use crate::read_iter::{InodeReadIter, block_bytes, file_blocks};
use crate::write_iter::{InodeWriteIter, write_ready};

verus! {

/// The slot of the newest inode block after the one of the last inode, for `n` inodes in all:
/// numbers start from 1, and inode `k` has slot `(k - 1) % 127` of block `(k - 1) / 127`.
pub open spec fn index_for_count(n: int) -> int {
    if n == 0 { 0 } else { (n - 1) % INODES_IN_BLOCK as int + 1 }
}

/// The pointers of the head block of the list of free inode numbers.
pub open spec fn free_inode_pointers(m: MetaData) -> Seq<u32> {
    spec_pointers(m.inodes_free_list@)
}

/// Whether adding an inode when no inode number is free fails, from the metadata `m` on the
/// disk `d` with the inode table `t`, the root inode block filled up to slot `index`: when that
/// block is full, the block allocated for a new one must lie on the disk and the table must
/// have a block to move; in any case the count of inodes must not be at its largest, and the
/// table must then have a block for the next inode number.
pub open spec fn new_inode_fails(m: MetaData, d: Seq<Seq<u8>>, t: Seq<(u32, InodeBlock)>, index: int) -> bool {
    let n = m.superblock.inodes as int;
    if index == INODES_PER_BLOCK - 1 {
        let b = allocation(m, d);
        ||| !(0 < b < d.len())
        ||| t.len() == 0
        ||| n == u32::MAX
        ||| table_index(n + 1) > t.len()
    } else {
        n == u32::MAX || !in_table(t, n + 1)
    }
}

/// The block of the list of free inode numbers of `m` that adding an inode takes a number
/// from: the head, or the block that the head names next when the head is used up.
pub open spec fn free_inode_head(m: MetaData, d: Seq<Seq<u8>>) -> Seq<u8> {
    let p = free_inode_pointers(m);
    let i = m.superblock.free_inodes as int % (POINTERS_PER_BLOCK as int - 1);
    let moves = i == POINTERS_PER_BLOCK - 2 && p[0] == 0 && p[POINTERS_PER_BLOCK - 2] == 0;
    if moves { d[p[POINTERS_PER_BLOCK - 1] as int] } else { m.inodes_free_list@ }
}

/// The inode number that adding an inode takes from the list of free inode numbers of `m`, on
/// the disk `d` with the inode table `t`: the last one recorded in the head block of the list,
/// or in the block that the head names next when the head is used up; -1 when that block is
/// not on the disk, when no number is recorded there, or when the table has no block for it.
pub open spec fn reused_inode(m: MetaData, d: Seq<Seq<u8>>, t: Seq<(u32, InodeBlock)>) -> int {
    let p = free_inode_pointers(m);
    let i = m.superblock.free_inodes as int % (POINTERS_PER_BLOCK as int - 1);
    let moves = i == POINTERS_PER_BLOCK - 2 && p[0] == 0 && p[POINTERS_PER_BLOCK - 2] == 0;
    let next = p[POINTERS_PER_BLOCK - 1];
    let head = if moves { d[next as int] } else { m.inodes_free_list@ };
    let inum = spec_pointers(head)[i - 1];
    if (moves && !(0 < next < d.len())) || i == 0 || inum == 0 || !in_table(t, inum as int) {
        -1
    } else {
        inum as int
    }
}

/// The list of inodes: adds, removes and walks the inodes of the inode table.
pub struct InodeList {
    pub curr_inode_block: InodeBlock,
    pub inode_index: usize,
}

impl InodeList {
    /// The list for the metadata `fs_meta_data`: the next inode goes after the last one in the
    /// root inode block.
    pub fn new(fs_meta_data: &MetaData) -> (r: InodeList)
        ensures
            encodes_inode_block(fs_meta_data.inodes_root_block@, r.curr_inode_block),
            r.inode_index == index_for_count(fs_meta_data.superblock.inodes as int),
            r.inode_index <= INODES_IN_BLOCK,
    {
        let inode_blk = fs_meta_data.inodes_root_block.inode_block();
        let n = fs_meta_data.superblock.inodes as usize;
        let i = if n == 0 { 0 } else { (n - 1) % INODES_IN_BLOCK + 1 };
        InodeList { inode_index: i, curr_inode_block: inode_blk }
    }

    /// Whether the root inode block has no free slot.
    pub fn inodeblock_isfull(&self) -> (r: bool)
        ensures
            r == (self.inode_index == INODES_PER_BLOCK - 1),
    {
        if self.inode_index == INODES_PER_BLOCK - 1 {
            true
        } else {
            false
        }
    }

    /// Makes the block `new_blk` hold the current root inode block and starts an empty root
    /// inode block that links to it. False, with nothing changed, when `new_blk` is not a
    /// block of the disk or the inode table is empty.
    pub fn add_inodeblock(&mut self, fs_meta_data: &mut MetaData, inode_table: &mut InodeTable, disk: &mut Disk, new_blk: i64) -> (r: bool)
        requires
            INODES_ROOT_BLOCK < old(disk)@.len(),
            table_in_disk(old(inode_table)@, old(disk)@.len()),
        ensures
            r == (0 < new_blk && new_blk < old(disk)@.len() && new_blk <= u32::MAX && old(inode_table)@.len() > 0),
            !r ==> *final(self) == *old(self) && *final(fs_meta_data) == *old(fs_meta_data)
                && final(inode_table)@ == old(inode_table)@ && final(disk)@ == old(disk)@,
            r ==> ({
                let n = old(inode_table)@.len() as int;
                let t = final(inode_table)@;
                &&& final(self).inode_index == 0
                &&& final(self).curr_inode_block == old(self).curr_inode_block
                &&& t.len() == n + 1
                &&& forall|k: int| 0 <= k < n - 1 ==> #[trigger] t[k] == old(inode_table)@[k]
                &&& t[n - 1].0 == new_blk
                &&& t[n].0 == INODES_ROOT_BLOCK
                &&& t[n].1.next_block == new_blk
                &&& t[n].1.prev_block == 0
                &&& forall|k: int| 0 <= k < INODES_IN_BLOCK ==> #[trigger] t[n].1.inodes@[k] == crate::inode::zero_inode()
                &&& forall|ib: InodeBlock| encodes_inode_block(old(fs_meta_data).inodes_root_block@, ib) ==>
                    t[n - 1].1 == InodeBlock { prev_block: new_blk as u32, ..ib }
                &&& encodes_inode_block(final(fs_meta_data).inodes_root_block@, t[n].1)
                &&& final(fs_meta_data).superblock == old(fs_meta_data).superblock
                &&& final(fs_meta_data).root_free_list == old(fs_meta_data).root_free_list
                &&& final(fs_meta_data).inodes_free_list == old(fs_meta_data).inodes_free_list
                &&& final(disk)@.len() == old(disk)@.len()
                &&& new_blk != INODES_ROOT_BLOCK ==> encodes_inode_block(final(disk)@[new_blk as int], t[n - 1].1)
                &&& encodes_inode_block(final(disk)@[INODES_ROOT_BLOCK as int], t[n].1)
                &&& forall|k: int| 0 <= k < old(disk)@.len() && k != new_blk && k != INODES_ROOT_BLOCK ==> #[trigger] final(disk)@[k] == old(disk)@[k]
                &&& table_in_disk(t, old(disk)@.len())
            }),
            final(disk).mount_count() == old(disk).mount_count(),
            final(disk).path_view() == old(disk).path_view(),
    {
        if new_blk > 0 && (new_blk as u64) < disk.size() as u64 && new_blk <= 0xffff_ffff && inode_table.len() > 0 {
            let mut inode_blk = InodeBlock::new();
            inode_blk.next_block = new_blk as u32;
            let block = inode_blk.as_block();
            let mut root_blk = fs_meta_data.inodes_root_block;
            let mut rib = root_blk.inode_block();
            let ghost old_rib = rib;
            rib.prev_block = new_blk as u32;
            root_blk.set_inode_block(rib);
            disk.write(new_blk as usize, root_blk.data_as_ref());
            disk.write(INODES_ROOT_BLOCK, block.data_as_ref());
            fs_meta_data.inodes_root_block = block;
            self.inode_index = 0;
            let mut r = inode_table.pop().unwrap();
            r.0 = new_blk as u32;
            r.1 = root_blk.inode_block();
            inode_table.push(r);
            inode_table.push((INODES_ROOT_BLOCK as u32, fs_meta_data.inodes_root_block.inode_block()));
            proof {
                let t = inode_table@;
                let n = old(inode_table)@.len() as int;
                crate::block::law_inode_block_bytes_determine_block(root_blk@, t[n - 1].1, rib);
                crate::block::law_inode_block_bytes_determine_block(block@, t[n as int].1, inode_blk);
                assert forall|ib: InodeBlock| encodes_inode_block(old(fs_meta_data).inodes_root_block@, ib) implies
                    t[n - 1].1 == InodeBlock { prev_block: new_blk as u32, ..ib } by {
                    crate::block::law_inode_block_bytes_determine_block(old(fs_meta_data).inodes_root_block@, ib, old_rib);
                }
                assert forall|k: int| 0 <= k < t.len() implies (#[trigger] t[k]).0 < disk@.len() by {
                    if k < n - 1 {
                        assert(t[k] == old(inode_table)@[k]);
                    }
                }
            }
            true
        } else {
            false
        }
    }

    /// Adds the inode `inode` and returns its number: a new number after the last one when
    /// no inode number is free (starting a new inode block when the root one is full), else
    /// the newest free number, whose inode is reset to a blank one. Returns -1 when it fails.
    pub fn add(&mut self, fs_meta_data: &mut MetaData, inode_table: &mut InodeTable, disk: &mut Disk, inode: Inode) -> (r: i64)
        requires
            INODES_FREE_LIST < old(disk)@.len(),
            old(self).inode_index <= INODES_IN_BLOCK,
            table_in_disk(old(inode_table)@, old(disk)@.len()),
        ensures
            final(self).inode_index <= INODES_IN_BLOCK,
            table_in_disk(final(inode_table)@, final(disk)@.len()),
            final(disk)@.len() == old(disk)@.len(),
            final(disk).mount_count() == old(disk).mount_count(),
            final(disk).path_view() == old(disk).path_view(),
            r == -1 || r > 0 || old(fs_meta_data).superblock.free_inodes > 0,
            old(fs_meta_data).superblock.free_inodes == 0 && r != -1 ==> {
                &&& r == old(fs_meta_data).superblock.inodes + 1
                &&& final(fs_meta_data).superblock.inodes == r
                &&& final(fs_meta_data).superblock.free_inodes == 0
                &&& in_table(final(inode_table)@, r as int)
                &&& inode_at(final(inode_table)@, r as int) == inode
            },
            old(fs_meta_data).superblock.free_inodes > 0 && r != -1 ==> {
                &&& final(fs_meta_data).superblock.free_inodes == old(fs_meta_data).superblock.free_inodes - 1
                &&& final(fs_meta_data).superblock.inodes == old(fs_meta_data).superblock.inodes
                &&& in_table(final(inode_table)@, r as int)
                &&& inode_at(final(inode_table)@, r as int) == Inode::blank_spec()
            },
            old(fs_meta_data).superblock.free_inodes == 0 && old(self).inode_index < INODES_IN_BLOCK
                && old(fs_meta_data).superblock.inodes < u32::MAX
                && in_table(old(inode_table)@, old(fs_meta_data).superblock.inodes + 1) ==> {
                &&& r == old(fs_meta_data).superblock.inodes + 1
                &&& table_sets_inode(old(inode_table)@, final(inode_table)@, r as int, inode)
            },
            old(fs_meta_data).superblock.free_inodes == 0 ==>
                (r == -1 <==> new_inode_fails(*old(fs_meta_data), old(disk)@, old(inode_table)@, old(self).inode_index as int)),
            old(fs_meta_data).superblock.free_inodes > 0 ==>
                r == reused_inode(*old(fs_meta_data), old(disk)@, old(inode_table)@),
            old(fs_meta_data).superblock.free_inodes > 0 ==> {
                let m = *old(fs_meta_data);
                let p = free_inode_pointers(m);
                let i = m.superblock.free_inodes as int % (POINTERS_PER_BLOCK as int - 1);
                let moves = i == POINTERS_PER_BLOCK - 2 && p[0] == 0 && p[POINTERS_PER_BLOCK - 2] == 0;
                let next = p[POINTERS_PER_BLOCK - 1];
                let head = if moves { old(disk)@[next as int] } else { m.inodes_free_list@ };
                let inum = spec_pointers(head)[i - 1];
                &&& moves && !(0 < next < old(disk)@.len()) ==> r == -1
                &&& !moves && i == 0 ==> r == -1
                &&& (!moves || 0 < next < old(disk)@.len()) && i != 0 ==> {
                    &&& (inum == 0 || !in_table(old(inode_table)@, inum as int)) ==> r == -1
                    &&& (inum != 0 && in_table(old(inode_table)@, inum as int)) ==> {
                        &&& r == inum
                        &&& final(fs_meta_data).superblock == (Superblock { free_inodes: (m.superblock.free_inodes - 1) as u32, ..m.superblock })
                        &&& final(fs_meta_data).inodes_free_list@ == put_u32(head, 4 * (i - 1), 0)
                        &&& table_sets_inode(old(inode_table)@, final(inode_table)@, inum as int, Inode::blank_spec())
                    }
                }
            },
    {
        if fs_meta_data.superblock.free_inodes == 0 {
            if self.inodeblock_isfull() {
                let mut block_mgr = BlockManager::new(*fs_meta_data);
                let new_blk = block_mgr.allocate_free_block(disk);
                proof {
                    lemma_allocation(*old(fs_meta_data), old(disk)@, new_blk, block_mgr.meta_data, disk@);
                }
                *fs_meta_data = block_mgr.meta_data;
                if !self.add_inodeblock(fs_meta_data, inode_table, disk, new_blk) {
                    return -1;
                }
            }
            if fs_meta_data.superblock.inodes == u32::MAX {
                return -1;
            }
            let inumber = (fs_meta_data.superblock.inodes + 1) as usize;
            if !has_inode_slot(inode_table, inumber) {
                return -1;
            }
            fs_meta_data.superblock.inodes += 1;
            fs_meta_data.inodes_root_block.set_inode(self.inode_index, inode);
            self.inode_index += 1;
            set_inode(inode_table, inumber, inode);
            let ghost t1 = inode_table@;
            let mut proxy = InodeProxy::new(inumber);
            proxy.save(inode_table, fs_meta_data, disk);
            inumber as i64
        } else {
            let n = fs_meta_data.superblock.free_inodes as usize;
            let i = n % (POINTERS_PER_BLOCK - 1);
            if i == POINTERS_PER_BLOCK - 2 && fs_meta_data.inodes_free_list.pointer(0) == 0
                && fs_meta_data.inodes_free_list.pointer(POINTERS_PER_BLOCK - 2) == 0 {
                let next_ptr = fs_meta_data.inodes_free_list.pointer(POINTERS_PER_BLOCK - 1);
                if next_ptr > 0 && (next_ptr as usize) < disk.size() {
                    let block = fetch_block(disk, next_ptr as usize);
                    fs_meta_data.inodes_free_list = block;
                } else {
                    return -1;
                }
            }
            if i == 0 {
                return -1;
            }
            let free_inum = fs_meta_data.inodes_free_list.pointer(i - 1);
            if !has_inode_slot(inode_table, free_inum as usize) {
                return -1;
            }
            fs_meta_data.inodes_free_list.set_pointer(i - 1, 0);
            fs_meta_data.superblock.free_inodes -= 1;
            set_inode(inode_table, free_inum as usize, Inode::blank());
            let mut proxy = InodeProxy::new(free_inum as usize);
            proxy.save(inode_table, fs_meta_data, disk);
            free_inum as i64
        }
    }
}


/// The free-block list of `mf` is what giving back the blocks `freed` from the metadata `m` on
/// the disk `d`, and then handing out the block `b`, leave; its superblock counts one more free
/// inode number than `m`'s.
pub open spec fn frees_then_allocates(m: MetaData, d: Seq<Seq<u8>>, freed: Seq<u32>, b: i64, mf: MetaData) -> bool {
    exists|m1: MetaData, d1: Seq<Seq<u8>>, m2: MetaData, d2: Seq<Seq<u8>>|
        frees(m, d, freed, m1, d1) && #[trigger] allocates(m1, d1, b, m2, d2)
        && mf.root_free_list == m2.root_free_list
        && mf.superblock == (Superblock { free_inodes: (m.superblock.free_inodes + 1) as u32, ..m2.superblock })
}

/// A new head block of the list of free inode numbers: its last pointer names the block `b`
/// that now holds the full head, and its first pointer is `inumber`.
pub open spec fn new_inode_head(b: u32, inumber: u32) -> Seq<u8> {
    put_u32(put_u32(zero_block(), 4 * (POINTERS_PER_BLOCK - 1), b), 0, inumber)
}

impl InodeList {
    /// Removes inode `inumber`: gives its blocks back to the free-block list (as
    /// `BlockManager::free_blocks` does), clears its data,
    /// and records its number in the list of free inode numbers (taking a new head block for
    /// that list when the head is full). False when the counts would overflow or the head of
    /// the list of free inode numbers has no slot left.
    #[verifier::rlimit(30)]
    pub fn remove(&mut self, fs_meta_data: &mut MetaData, inode_table: &mut InodeTable, disk: &mut Disk, inumber: usize) -> (r: bool)
        requires
            INODES_FREE_LIST < old(disk)@.len(),
            in_table(old(inode_table)@, inumber as int),
            table_in_disk(old(inode_table)@, old(disk)@.len()),
        ensures
            table_in_disk(final(inode_table)@, final(disk)@.len()),
            final(disk)@.len() == old(disk)@.len(),
            final(inode_table)@.len() == old(inode_table)@.len(),
            *final(self) == *old(self),
            r ==> {
                &&& final(fs_meta_data).superblock.free_inodes == old(fs_meta_data).superblock.free_inodes + 1
                &&& free_inode_pointers(*final(fs_meta_data)).contains(inumber as u32)
                &&& inode_at(final(inode_table)@, inumber as int).data_block == 0
                &&& inode_at(final(inode_table)@, inumber as int).size == 0
            },
            ({
                let m = *old(fs_meta_data);
                let freed = crate::inode::blocks_in_use(old(disk)@, inode_at(old(inode_table)@, inumber as int));
                let z = first_zero_from(free_inode_pointers(m), 0);
                let st = free_fold(m, old(disk)@, freed, freed.len() as int);
                let b = allocation_from(Superblock { free_blocks: st.free_blocks as u32, ..m.superblock }, st.head, old(disk)@.len());
                &&& !r <==> (freed.len() + m.superblock.free_blocks > u32::MAX || m.superblock.free_inodes == u32::MAX
                    || (z >= POINTERS_PER_BLOCK && !(0 < b < old(disk)@.len())))
                &&& r && z < POINTERS_PER_BLOCK - 1 ==> final(fs_meta_data).inodes_free_list@
                    == put_u32(m.inodes_free_list@, 4 * z, inumber as u32)
                &&& r && z < POINTERS_PER_BLOCK - 1 ==> {
                    &&& final(fs_meta_data).root_free_list@ == st.head
                    &&& final(fs_meta_data).superblock == (Superblock {
                        free_blocks: st.free_blocks as u32,
                        free_inodes: (m.superblock.free_inodes + 1) as u32,
                        ..m.superblock
                    })
                }
                &&& r ==> final(fs_meta_data).superblock.inodes == m.superblock.inodes
                &&& r && z >= POINTERS_PER_BLOCK - 1 ==> frees_then_allocates(m, old(disk)@, freed, b, *final(fs_meta_data))
                &&& r && z >= POINTERS_PER_BLOCK - 1 && 0 < b < old(disk)@.len() ==> {
                    &&& final(fs_meta_data).inodes_free_list@ == new_inode_head(b as u32, inumber as u32)
                    &&& b != ROOT_FREE_LIST ==> final(disk)@[b as int] == m.inodes_free_list@
                }
                &&& r && z == POINTERS_PER_BLOCK - 1 && !(0 < b < old(disk)@.len()) ==>
                    final(fs_meta_data).inodes_free_list@ == put_u32(m.inodes_free_list@, 4 * z, inumber as u32)
            }),
            final(disk).mount_count() == old(disk).mount_count(),
            final(disk).path_view() == old(disk).path_view(),
    {
        let mut inode = self.get_inode(inumber);
        let blocks = inode.deallocate_ptrs(inode_table, disk);
        if blocks.len() > (u32::MAX - fs_meta_data.superblock.free_blocks) as usize {
            return false;
        }
        let ghost freed = blocks@;
        let mut block_mgr = BlockManager::new(*fs_meta_data);
        block_mgr.free_blocks(blocks, disk);
        let ghost m1 = block_mgr.meta_data;
        let mut i: usize = 0;
        loop
            invariant
                i <= POINTERS_PER_BLOCK,
                block_mgr.meta_data == m1,
                first_zero_from(free_inode_pointers(m1), 0) == first_zero_from(free_inode_pointers(m1), i as int),
            ensures
                i <= POINTERS_PER_BLOCK,
                block_mgr.meta_data == m1,
                i == first_zero_from(free_inode_pointers(m1), 0),
            decreases POINTERS_PER_BLOCK - i,
        {
            if i == POINTERS_PER_BLOCK {
                break;
            }
            if block_mgr.meta_data.inodes_free_list.pointer(i) == 0 {
                break;
            }
            i += 1;
        }
        proof {
            assert(m1.inodes_free_list == fs_meta_data.inodes_free_list);
            assert(m1.superblock.free_inodes == fs_meta_data.superblock.free_inodes);
            assert(free_inode_pointers(m1) == free_inode_pointers(*fs_meta_data));
        }
        let ghost d1 = disk@;
        let ghost mut m2 = m1;
        let ghost mut d2 = d1;
        let ghost mut got: i64 = 0;
        if i >= POINTERS_PER_BLOCK - 1 {
            let ghost mb = block_mgr.meta_data;
            let ghost db = disk@;
            let new_blk = block_mgr.allocate_free_block(disk);
            proof {
                lemma_allocation(mb, db, new_blk, block_mgr.meta_data, disk@);
                m2 = block_mgr.meta_data;
                d2 = disk@;
                got = new_blk;
            }
            if new_blk > 0 && (new_blk as u64) < disk.size() as u64 {
                disk.write(new_blk as usize, block_mgr.meta_data.inodes_free_list.data_as_ref());
                let mut blk = Block::new();
                blk.set_pointer(POINTERS_PER_BLOCK - 1, new_blk as u32);
                block_mgr.meta_data.inodes_free_list.set_data(blk.data());
                block_mgr.save_meta_data(disk, MetaPart::RootFreeList);
                i = 0;
            }
        }
        if i >= POINTERS_PER_BLOCK || block_mgr.meta_data.superblock.free_inodes == u32::MAX {
            *fs_meta_data = block_mgr.meta_data;
            return false;
        }
        let ghost before = block_mgr.meta_data.inodes_free_list@;
        block_mgr.meta_data.inodes_free_list.set_pointer(i, inumber as u32);
        block_mgr.meta_data.superblock.free_inodes += 1;
        block_mgr.save_meta_data(disk, MetaPart::RootFreeList);
        block_mgr.save_meta_data(disk, MetaPart::Superblock);
        *fs_meta_data = block_mgr.meta_data;
        proof {
            assert(free_inode_pointers(*fs_meta_data)[i as int] == inumber as u32);
            if first_zero_from(free_inode_pointers(m1), 0) >= POINTERS_PER_BLOCK - 1 {
                assert(allocates(m1, d1, got, m2, d2));
                assert(frees_then_allocates(*old(fs_meta_data), old(disk)@, freed, got, *fs_meta_data));
            }
        }
        true
    }

    /// Whether inode `inumber` is one of the inodes added so far and is valid.
    pub fn inode_exists(&mut self, fs_meta_data: &MetaData, inode_table: &InodeTable, inumber: usize) -> (r: bool)
        ensures
            *final(self) == *old(self),
            r == (inumber > 0 && inumber - 1 < fs_meta_data.superblock.inodes && in_table(inode_table@, inumber as int)
                && inode_at(inode_table@, inumber as int).valid != 0),
    {
        let inrange = inumber > 0 && (inumber - 1) < fs_meta_data.superblock.inodes as usize;
        if inrange && has_inode_slot(inode_table, inumber) {
            self.get_inode(inumber).is_valid(inode_table)
        } else {
            false
        }
    }

    /// The block number and a block holding the inode block that inode `i` lives in.
    pub fn get_inode_block(&mut self, inode_table: &InodeTable, i: usize) -> (r: (u32, Block))
        requires
            1 <= i,
            table_index(i as int) < inode_table@.len(),
        ensures
            *final(self) == *old(self),
            r.0 == inode_table@[table_index(i as int)].0,
            encodes_inode_block(r.1@, inode_table@[table_index(i as int)].1),
    {
        get_inode_block(inode_table, i)
    }

    /// Access to inode `inumber`.
    pub fn get_inode(&mut self, inumber: usize) -> (r: InodeProxy)
        ensures
            *final(self) == *old(self),
            r.inumber == inumber,
            r.data_manager is None,
    {
        InodeProxy::new(inumber)
    }

    /// Replaces inode `inumber` of the inode table by `inode`.
    pub fn set_inode(&mut self, inode_table: &mut InodeTable, inumber: usize, inode: Inode)
        requires
            1 <= inumber,
            table_index(inumber as int) < old(inode_table)@.len(),
        ensures
            *final(self) == *old(self),
            table_sets_inode(old(inode_table)@, final(inode_table)@, inumber as int, inode),
    {
        set_inode(inode_table, inumber, inode)
    }

    /// Writes the inode block that holds inode `inumber` to the disk.
    pub fn save_inode(&mut self, fs_meta_data: &mut MetaData, inode_table: &InodeTable, disk: &mut Disk, inumber: usize) -> (r: bool)
        requires
            in_table(inode_table@, inumber as int),
            table_in_disk(inode_table@, old(disk)@.len()),
        ensures
            r,
            *final(self) == *old(self),
            ({
                let e = inode_table@[table_index(inumber as int)];
                &&& final(disk)@.len() == old(disk)@.len()
                &&& encodes_inode_block(final(disk)@[e.0 as int], e.1)
                &&& forall|k: int| 0 <= k < old(disk)@.len() && k != e.0 ==> #[trigger] final(disk)@[k] == old(disk)@[k]
            }),
            final(disk).mount_count() == old(disk).mount_count(),
            final(disk).path_view() == old(disk).path_view(),
    {
        self.get_inode(inumber).save(inode_table, fs_meta_data, disk)
    }

    /// A reader at the start of file `inumber`.
    pub fn read_iter(&mut self, inumber: usize, inode_table: &InodeTable, disk: &mut Disk) -> (r: InodeReadIter)
        requires
            in_table(inode_table@, inumber as int),
        ensures
            *final(self) == *old(self),
            r.inumber == inumber,
            r.data_blocks@ == file_blocks(old(disk)@, inode_at(inode_table@, inumber as int)),
            r.curr_block_index == 0,
            r.byte_offset == 0,
            r.curr_data_block@ == block_bytes(old(disk)@, r.data_blocks@, 0),
            final(disk)@ == old(disk)@,
            final(disk).mount_count() == old(disk).mount_count(),
            final(disk).path_view() == old(disk).path_view(),
    {
        InodeReadIter::new(inumber, inode_table, disk)
    }

    /// A writer at the end of file `inumber`.
    pub fn write_iter(&mut self, inumber: usize, inode_table: &InodeTable, disk: &mut Disk) -> (r: InodeWriteIter)
        requires
            in_table(inode_table@, inumber as int),
            table_in_disk(inode_table@, old(disk)@.len()),
        ensures
            *final(self) == *old(self),
            write_ready(r, inode_table@, old(disk)@),
            r.inumber == inumber,
            r.data_blocks@ == file_blocks(old(disk)@, inode_at(inode_table@, inumber as int)),
            r.flushed,
            !r.aligned_to_block,
            final(disk)@ == old(disk)@,
            final(disk).mount_count() == old(disk).mount_count(),
            final(disk).path_view() == old(disk).path_view(),
    {
        InodeWriteIter::new(inumber, disk, inode_table)
    }

    /// A walk over the `inodes` inodes that the superblock counts, starting at the root inode block.
    pub fn iter(&mut self, fs_meta_data: &MetaData) -> (r: InodeListIter)
        ensures
            *final(self) == *old(self),
            r.total_items == fs_meta_data.superblock.inodes,
            r.curr_inode_block == old(self).curr_inode_block,
            r.next_i == 0,
            r.iblock_index == 0,
    {
        InodeListIter::new(fs_meta_data.superblock.inodes as usize, self.curr_inode_block)
    }
}

/// The walk `s` once it has moved on to the next block of the inode table: at the end of each
/// 128 slots, while the table has a next block.
pub open spec fn walk_moved(t: Seq<(u32, InodeBlock)>, s: InodeListIter) -> InodeListIter {
    if s.next_i as int % INODES_PER_BLOCK as int == INODES_PER_BLOCK - 1 && s.iblock_index < t.len() {
        InodeListIter { curr_inode_block: t[s.iblock_index as int].1, iblock_index: (s.iblock_index + 1) as usize, ..s }
    } else {
        s
    }
}

/// The inode that the next step of the walk `s` yields.
pub open spec fn walk_item(t: Seq<(u32, InodeBlock)>, s: InodeListIter) -> Inode {
    let s1 = walk_moved(t, s);
    s1.curr_inode_block.inodes@[s1.next_i as int % INODES_IN_BLOCK as int]
}

/// The walk `s` after one step.
pub open spec fn walk_step(t: Seq<(u32, InodeBlock)>, s: InodeListIter) -> InodeListIter {
    let s1 = walk_moved(t, s);
    InodeListIter { next_i: (s1.next_i + 1) as usize, ..s1 }
}

/// The walk `s` after `n` steps.
pub open spec fn walk_after(t: Seq<(u32, InodeBlock)>, s: InodeListIter, n: nat) -> InodeListIter
    decreases n,
{
    if n == 0 {
        s
    } else {
        walk_step(t, walk_after(t, s, (n - 1) as nat))
    }
}

/// A walk over the inodes of the inode table.
pub struct InodeListIter {
    pub curr_inode_block: InodeBlock,
    pub next_i: usize,
    pub total_items: usize,
    pub iblock_index: usize,
}

impl InodeListIter {
    pub fn new(total_items: usize, start_inode_block: InodeBlock) -> (r: InodeListIter)
        ensures
            r.total_items == total_items,
            r.curr_inode_block == start_inode_block,
            r.next_i == 0,
            r.iblock_index == 0,
    {
        InodeListIter { total_items, curr_inode_block: start_inode_block, iblock_index: 0, next_i: 0 }
    }

    /// Whether the walk is at the last slot of an inode-sized block of 128 slots.
    pub fn end_of_curr_blk(&self) -> (r: bool)
        ensures
            r == (self.next_i % INODES_PER_BLOCK == INODES_PER_BLOCK - 1),
    {
        if self.next_i % INODES_PER_BLOCK == INODES_PER_BLOCK - 1 {
            true
        } else {
            false
        }
    }

    fn get_next(&mut self) -> (r: Option<Inode>)
        ensures
            old(self).next_i < old(self).total_items ==> r == Some(old(self).curr_inode_block.inodes@[old(self).next_i as int % INODES_IN_BLOCK as int])
                && *final(self) == (InodeListIter { next_i: (old(self).next_i + 1) as usize, ..*old(self) }),
            old(self).next_i >= old(self).total_items ==> r is None && *final(self) == *old(self),
    {
        if self.next_i < self.total_items {
            let inode = self.curr_inode_block.inodes[self.next_i % INODES_IN_BLOCK];
            self.next_i += 1;
            Some(inode)
        } else {
            None
        }
    }

    /// The next inode of the walk, or None after the last one. At the end of each 128 slots
    /// the walk moves on to the next block of the inode table.
    pub fn next(&mut self, inode_table: &InodeTable) -> (r: Option<Inode>)
        ensures
            old(self).next_i < old(self).total_items ==> r == Some(walk_item(inode_table@, *old(self)))
                && *final(self) == walk_step(inode_table@, *old(self)),
            old(self).next_i >= old(self).total_items ==> r is None && *final(self) == walk_moved(inode_table@, *old(self)),
    {
        if self.end_of_curr_blk() {
            if self.iblock_index < inode_table.len() {
                let (_blk_num, next_iblock) = inode_table[self.iblock_index];
                self.iblock_index += 1;
                self.curr_inode_block = next_iblock;
            }
            return self.get_next();
        } else {
            return self.get_next();
        }
    }
}
/// The number that adding an inode gives is one that no inode in use holds: with no free
/// number it is past every number given out so far, and else it is a number that the list of
/// free inode numbers records (the last one in its head, or in the block the head names next).
pub proof fn law_added_number_is_free(m: MetaData, d: Seq<Seq<u8>>, t: Seq<(u32, InodeBlock)>, r: int)
    requires
        r > 0,
        m.superblock.free_inodes == 0 ==> r == m.superblock.inodes + 1,
        m.superblock.free_inodes > 0 ==> r == reused_inode(m, d, t),
    ensures
        m.superblock.free_inodes == 0 ==> r > m.superblock.inodes,
        m.superblock.free_inodes > 0 ==> exists|j: int| 0 <= j < POINTERS_PER_BLOCK - 1
            && #[trigger] spec_pointers(free_inode_head(m, d))[j] == r,
{
    if m.superblock.free_inodes > 0 {
        let i = m.superblock.free_inodes as int % (POINTERS_PER_BLOCK as int - 1);
        let h = spec_pointers(free_inode_head(m, d));
        assert(h[i - 1] == r);
    }
}

/// Removing a file gives every block it uses back to the free-block list: when the head of the
/// list has room for them and the list after the removal is what giving them back leaves (as
/// `remove` states), the free-block count grows by the number of blocks the file used, and its
/// top pointer block, each of its data blocks and each of its pointer blocks that lies on the
/// disk is recorded in the head, after the blocks recorded there before.
pub proof fn law_removed_blocks_go_back(m: MetaData, d: Seq<Seq<u8>>, x: Inode, mf: MetaData)
    requires
        m.root_free_list@.len() == BLOCK_SIZE,
        first_zero_from(crate::block::free_list_pointers(m), 0) + crate::inode::blocks_in_use(d, x).len() <= POINTERS_PER_BLOCK - 1,
        ({
            let freed = crate::inode::blocks_in_use(d, x);
            let st = free_fold(m, d, freed, freed.len() as int);
            &&& mf.root_free_list@ == st.head
            &&& mf.superblock.free_blocks == st.free_blocks
        }),
    ensures
        mf.superblock.free_blocks == m.superblock.free_blocks + crate::inode::blocks_in_use(d, x).len(),
        forall|j: int| 0 <= j < first_zero_from(crate::block::free_list_pointers(m), 0) ==>
            #[trigger] crate::block::free_list_pointers(mf)[j] == crate::block::free_list_pointers(m)[j],
        x.data_block != 0 ==> {
            let v = crate::inode::loaded_pointers(d, x);
            let p = crate::block::free_list_pointers(mf);
            &&& x.data_block < d.len() ==> p.contains(x.data_block)
            &&& forall|i: int| 0 <= i < v.direct.len() && 0 < v.direct[i] < d.len() ==> p.contains(#[trigger] v.direct[i])
            &&& forall|j: int, k: int| 0 <= j < v.indirect.len() && 0 <= k < v.indirect[j].len() && 0 < v.indirect[j][k] < d.len()
                ==> p.contains(#[trigger] v.indirect[j][k])
        },
{
    let freed = crate::inode::blocks_in_use(d, x);
    let s0 = first_zero_from(crate::block::free_list_pointers(m), 0);
    crate::block::lemma_fold_fits(m, d, freed, freed.len() as int);
    crate::inode::law_blocks_in_use(d, x);
    let p = crate::block::free_list_pointers(mf);
    assert forall|q: int| 0 <= q < freed.len() implies p.contains(#[trigger] freed[q]) by {
        assert(p[s0 + q] == freed[q]);
    }
    if x.data_block != 0 {
        let v = crate::inode::loaded_pointers(d, x);
        if x.data_block < d.len() {
            let q = choose|q: int| 0 <= q < freed.len() && freed[q] == x.data_block;
            assert(p.contains(freed[q]));
        }
        assert forall|i: int| 0 <= i < v.direct.len() && 0 < v.direct[i] < d.len() implies p.contains(#[trigger] v.direct[i]) by {
            assert(freed.contains(v.direct[i]));
            let q = choose|q: int| 0 <= q < freed.len() && freed[q] == v.direct[i];
            assert(p.contains(freed[q]));
        }
        assert forall|j: int, k: int| 0 <= j < v.indirect.len() && 0 <= k < v.indirect[j].len() && 0 < v.indirect[j][k] < d.len()
            implies p.contains(#[trigger] v.indirect[j][k]) by {
            assert(freed.contains(v.indirect[j][k]));
            let q = choose|q: int| 0 <= q < freed.len() && freed[q] == v.indirect[j][k];
            assert(p.contains(freed[q]));
        }
    }
}

/// A removed inode number is the next one handed out: when the head of the free-inode list
/// holds exactly the free inodes that the superblock counts, `remove` puts the number in the
/// first empty slot and counts it, and `add` then takes that slot back.
pub proof fn law_removed_inode_comes_back(m0: MetaData, m1: MetaData, inumber: u32)
    requires
        first_zero_from(free_inode_pointers(m0), 0) == m0.superblock.free_inodes,
        m0.superblock.free_inodes < POINTERS_PER_BLOCK - 2,
        inumber != 0,
        m1.inodes_free_list@ == put_u32(m0.inodes_free_list@, 4 * m0.superblock.free_inodes, inumber),
        m1.superblock.free_inodes == m0.superblock.free_inodes + 1,
        m0.inodes_free_list@.len() == BLOCK_SIZE,
    ensures
        ({
            let p = free_inode_pointers(m1);
            let i = m1.superblock.free_inodes as int % (POINTERS_PER_BLOCK as int - 1);
            &&& i == m0.superblock.free_inodes + 1
            &&& !(i == POINTERS_PER_BLOCK - 2 && p[0] == 0 && p[POINTERS_PER_BLOCK - 2] == 0)
            &&& p[i - 1] == inumber
        }),
{
    let z = m0.superblock.free_inodes as int;
    lemma_put_get(m0.inodes_free_list@, 4 * z, inumber);
    assert(free_inode_pointers(m1)[z] == inumber);
}

} // verus!
