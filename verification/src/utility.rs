use vstd::prelude::*;
use crate::block::{Block, InodeBlock, MetaData, Superblock, encodes_inode_block, spec_inode, spec_superblock, lemma_inode_agree};
use crate::codec::{be_u32, le_u32, zero_block};
use crate::constants::{BLOCK_SIZE, INODES_IN_BLOCK, INODES_ROOT_BLOCK, ROOT_FREE_LIST, INODES_FREE_LIST};
use crate::disk::Disk;
use crate::inode::Inode;

verus! {

/// The inode table: for each inode block, its block number and its contents.
pub type InodeTable = Vec<(u32, InodeBlock)>;

/// Reads block `block_num` of the disk.
pub fn fetch_block(disk: &mut Disk, block_num: usize) -> (r: Block)
    requires
        block_num < old(disk)@.len(),
    ensures
        r@ == old(disk)@[block_num as int],
        final(disk)@ == old(disk)@,
        final(disk).mount_count() == old(disk).mount_count(),
        final(disk).path_view() == old(disk).path_view(),
{
    let mut block = Block::new();
    disk.read(block_num, block.data_as_mut());
    return block;
}

/// Position in the inode table of the block that holds inode `i`: numbers start from 1, and
/// each block holds 127 of them.
pub open spec fn table_index(i: int) -> int {
    (i - 1) / INODES_IN_BLOCK as int
}

/// Slot inside its inode block of inode `i`.
pub open spec fn table_slot(i: int) -> int {
    (i - 1) % INODES_IN_BLOCK as int
}

/// The block number and a block holding the inode block that inode `i` lives in.
pub fn get_inode_block(inode_table: &InodeTable, i: usize) -> (r: (u32, Block))
    requires
        1 <= i,
        table_index(i as int) < inode_table@.len(),
    ensures
        r.0 == inode_table@[table_index(i as int)].0,
        encodes_inode_block(r.1@, inode_table@[table_index(i as int)].1),
{
    let index = (i - 1) / INODES_IN_BLOCK;
    let (block_num, inodeblock) = inode_table[index];
    (block_num, inodeblock.as_block())
}

/// The inode table `t2` is `t1` with inode `inumber` replaced by `inode`.
pub open spec fn table_sets_inode(t1: Seq<(u32, InodeBlock)>, t2: Seq<(u32, InodeBlock)>, inumber: int, inode: Inode) -> bool {
    let i = table_index(inumber);
    &&& t2.len() == t1.len()
    &&& forall|j: int| 0 <= j < t1.len() && j != i ==> #[trigger] t2[j] == t1[j]
    &&& t2[i].0 == t1[i].0
    &&& t2[i].1.inodes@ == t1[i].1.inodes@.update(table_slot(inumber), inode)
    &&& t2[i].1.next_block == t1[i].1.next_block
    &&& t2[i].1.prev_block == t1[i].1.prev_block
    &&& t2[i].1.temp == t1[i].1.temp
}

/// Replaces inode `inumber` of the inode table by `inode`.
pub fn set_inode(inode_table: &mut InodeTable, inumber: usize, inode: Inode)
    requires
        1 <= inumber,
        table_index(inumber as int) < old(inode_table)@.len(),
    ensures
        table_sets_inode(old(inode_table)@, final(inode_table)@, inumber as int, inode),
{
    let (blk_n, mut block) = get_inode_block(inode_table, inumber);
    let i = (inumber - 1) % INODES_IN_BLOCK;
    let ghost before = block@;
    block.set_inode(i, inode);
    let index = (inumber - 1) / INODES_IN_BLOCK;
    let ib = block.inode_block();
    proof {
        let old_ib = old(inode_table)@[index as int].1;
        assert forall|k: int| 0 <= k < INODES_IN_BLOCK implies #[trigger] ib.inodes@[k] == old_ib.inodes@.update(i as int, inode)[k] by {
            if k != i {
                lemma_inode_agree(before, block@, 32 * k);
            }
        }
        assert(ib.inodes@ =~= old_ib.inodes@.update(i as int, inode));
        assert(ib.next_block == le_u32(block@, 4064));
        assert(ib.next_block == old_ib.next_block);
        assert(ib.prev_block == old_ib.prev_block);
        assert(ib.temp@ =~= old_ib.temp@);
        vstd::array::axiom_array_ext_equal(ib.temp, old_ib.temp);
    }
    inode_table.set(index, (blk_n, ib));
}

/// Which metadata blocks to store.
#[derive(Copy, Clone, PartialEq, Eq, Debug)]
pub enum MetaPart {
    All,
    Superblock,
    RootFreeList,
    InodesFreeList,
    InodesRootBlock,
}

/// The bytes of block 0 hold the superblock `sb` followed by zeros.
pub open spec fn holds_superblock(s: Seq<u8>, sb: Superblock) -> bool {
    &&& s.len() == BLOCK_SIZE
    &&& spec_superblock(s) == sb
    &&& forall|i: int| 24 <= i < BLOCK_SIZE ==> #[trigger] s[i] == 0u8
}

/// The disk `d2` is `d1` after storing block 0 as the superblock `sb`.
pub open spec fn stores_superblock(d1: Seq<Seq<u8>>, d2: Seq<Seq<u8>>, sb: Superblock) -> bool {
    &&& d2.len() == d1.len()
    &&& holds_superblock(d2[0], sb)
    &&& forall|j: int| 0 < j < d1.len() ==> #[trigger] d2[j] == d1[j]
}

/// The disk `d2` is `d1` after storing the `part` of the metadata `m`.
pub open spec fn stores_meta(d1: Seq<Seq<u8>>, d2: Seq<Seq<u8>>, m: MetaData, part: MetaPart) -> bool {
    match part {
        MetaPart::Superblock => stores_superblock(d1, d2, m.superblock),
        MetaPart::RootFreeList => d2 == d1.update(ROOT_FREE_LIST as int, m.root_free_list@),
        MetaPart::InodesFreeList => d2 == d1.update(INODES_FREE_LIST as int, m.inodes_free_list@),
        MetaPart::InodesRootBlock => d2 == d1.update(INODES_ROOT_BLOCK as int, m.inodes_root_block@),
        MetaPart::All => stores_superblock(
            d1.update(INODES_ROOT_BLOCK as int, m.inodes_root_block@).update(
                ROOT_FREE_LIST as int,
                m.root_free_list@,
            ).update(INODES_FREE_LIST as int, m.inodes_free_list@),
            d2,
            m.superblock,
        ),
    }
}

/// Writes block 0 as the superblock followed by zeros.
fn save_superblock(superblock: Superblock, disk: &mut Disk)
    requires
        0 < old(disk)@.len(),
    ensures
        stores_superblock(old(disk)@, final(disk)@, superblock),
        final(disk).mount_count() == old(disk).mount_count(),
        final(disk).path_view() == old(disk).path_view(),
{
    let mut block = Block::new();
    block.set_superblock(superblock);
    disk.write(0, block.data_as_ref());
}

/// Stores the `part` of the metadata on the disk, at its fixed blocks.
pub fn save_meta_data(meta_data: &MetaData, disk: &mut Disk, part: MetaPart) -> (r: bool)
    requires
        INODES_FREE_LIST < old(disk)@.len(),
    ensures
        r,
        stores_meta(old(disk)@, final(disk)@, *meta_data, part),
        final(disk)@.len() == old(disk)@.len(),
        final(disk).mount_count() == old(disk).mount_count(),
        final(disk).path_view() == old(disk).path_view(),
{
    match part {
        MetaPart::Superblock => {
            save_superblock(meta_data.superblock, disk);
        },
        MetaPart::RootFreeList => {
            disk.write(ROOT_FREE_LIST, meta_data.root_free_list.data_as_ref());
        },
        MetaPart::InodesFreeList => {
            disk.write(INODES_FREE_LIST, meta_data.inodes_free_list.data_as_ref());
        },
        MetaPart::InodesRootBlock => {
            disk.write(INODES_ROOT_BLOCK, meta_data.inodes_root_block.data_as_ref());
        },
        MetaPart::All => {
            disk.write(INODES_ROOT_BLOCK, meta_data.inodes_root_block.data_as_ref());
            disk.write(ROOT_FREE_LIST, meta_data.root_free_list.data_as_ref());
            disk.write(INODES_FREE_LIST, meta_data.inodes_free_list.data_as_ref());
            save_superblock(meta_data.superblock, disk);
        },
    }
    true
}

/// The big-endian value of four bytes.
pub fn as_u32_be(array: &[u8; 4]) -> (r: u32)
    ensures
        r == be_u32(array@, 0),
{
    ((array[0] as u32) * 0x1000000) + ((array[1] as u32) * 0x10000) + ((array[2] as u32) * 0x100) + (array[3] as u32)
}

/// The little-endian value of four bytes.
pub fn as_u32_le(array: &[u8; 4]) -> (r: u32)
    ensures
        r == le_u32(array@, 0),
{
    (array[0] as u32) + ((array[1] as u32) * 0x100) + ((array[2] as u32) * 0x10000) + ((array[3] as u32) * 0x1000000)
}

/// The big-endian value of the first four bytes of `array`.
pub fn as_u32(array: &[u8]) -> (r: u32)
    requires
        array@.len() >= 4,
    ensures
        r == be_u32(array@, 0),
{
    let mut byte_array: [u8; 4] = [0; 4];
    byte_array[0] = array[0];
    byte_array[1] = array[1];
    byte_array[2] = array[2];
    byte_array[3] = array[3];
    as_u32_be(&byte_array)
}

} // verus!
