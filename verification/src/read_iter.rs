use vstd::prelude::*;
use crate::block::Block;
use crate::codec::zero_block;
use crate::constants::BLOCK_SIZE;
use crate::disk::Disk;
use crate::inode::{Inode, InodeProxy, in_table, inode_at, loaded_pointers};
use crate::utility::InodeTable;

verus! {

/// The data blocks of the file with inode `x` on the disk `d`; none when it has no pointer block.
pub open spec fn file_blocks(d: Seq<Seq<u8>>, x: Inode) -> Seq<u32> {
    if x.data_block > 0 {
        loaded_pointers(d, x).direct
    } else {
        Seq::empty()
    }
}

/// Data block `i` of the list `blocks` exists, is not null and lies on the disk.
pub open spec fn readable(d: Seq<Seq<u8>>, blocks: Seq<u32>, i: int) -> bool {
    0 <= i < blocks.len() && 0 < blocks[i] && blocks[i] < d.len()
}

/// The bytes of data block `i`: zeros when it cannot be read.
pub open spec fn block_bytes(d: Seq<Seq<u8>>, blocks: Seq<u32>, i: int) -> Seq<u8> {
    if readable(d, blocks, i) {
        d[blocks[i] as int]
    } else {
        zero_block()
    }
}

/// Byte `p` of the file whose data blocks are `blocks`.
pub open spec fn file_byte(d: Seq<Seq<u8>>, blocks: Seq<u32>, p: int) -> u8 {
    block_bytes(d, blocks, p / BLOCK_SIZE as int)[p % BLOCK_SIZE as int]
}

/// Reading can go on at byte `p` of a file of `size` bytes: `p` is not the end of the file, and
/// its block is the first one or a block that can be read.
pub open spec fn can_read_at(d: Seq<Seq<u8>>, blocks: Seq<u32>, size: int, p: int) -> bool {
    p != size && (p / BLOCK_SIZE as int == 0 || readable(d, blocks, p / BLOCK_SIZE as int))
}

/// Reads a file one byte after the other.
pub struct InodeReadIter {
    pub inumber: usize,
    pub data_blocks: Vec<u32>,
    pub curr_data_block: Block,
    pub curr_block_index: usize,
    pub byte_offset: usize,
}

impl InodeReadIter {
    /// The iterator is at a byte of the file, and the block it holds is the block of its
    /// position whenever its block index is that of its position.
    pub open spec fn wf(&self, d: Seq<Seq<u8>>, size: int) -> bool {
        &&& self.byte_offset <= size
        &&& self.curr_block_index <= self.byte_offset as int / BLOCK_SIZE as int
        &&& self.curr_block_index == self.byte_offset as int / BLOCK_SIZE as int ==>
            self.curr_data_block@ == block_bytes(d, self.data_blocks@, self.curr_block_index as int)
        &&& self.curr_block_index == self.byte_offset as int / BLOCK_SIZE as int && self.curr_block_index > 0 ==>
            readable(d, self.data_blocks@, self.curr_block_index as int)
    }

    /// An iterator at the start of file `inumber`, holding its first data block.
    pub fn new(inumber: usize, inode_table: &InodeTable, disk: &mut Disk) -> (r: InodeReadIter)
        requires
            in_table(inode_table@, inumber as int),
        ensures
            r.inumber == inumber,
            r.data_blocks@ == file_blocks(old(disk)@, inode_at(inode_table@, inumber as int)),
            r.curr_block_index == 0,
            r.byte_offset == 0,
            r.curr_data_block@ == block_bytes(old(disk)@, r.data_blocks@, 0),
            final(disk)@ == old(disk)@,
            final(disk).mount_count() == old(disk).mount_count(),
            final(disk).path_view() == old(disk).path_view(),
    {
        let mut inode = InodeProxy::new(inumber);
        let direct_pointers = inode.to_direct_pointers(inode_table, disk);
        let mut curr_data_block = Block::new();
        if direct_pointers.len() > 0 && direct_pointers[0] > 0 && (direct_pointers[0] as usize) < disk.size() {
            disk.read(direct_pointers[0] as usize, curr_data_block.data_as_mut());
        }
        InodeReadIter {
            inumber,
            data_blocks: direct_pointers,
            curr_data_block,
            curr_block_index: 0,
            byte_offset: 0,
        }
    }

    /// Access to the inode of the file.
    pub fn get_inode(&self) -> (r: InodeProxy)
        ensures
            r.inumber == self.inumber,
            r.data_manager is None,
    {
        InodeProxy::new(self.inumber)
    }

    /// Moves to byte `offset`, or to the end of the file when `offset` is past it.
    pub fn seek(&mut self, offset: usize, inode_table: &InodeTable)
        requires
            in_table(inode_table@, old(self).inumber as int),
        ensures
            *final(self) == (InodeReadIter {
                byte_offset: if offset <= inode_at(inode_table@, old(self).inumber as int).size {
                    offset
                } else {
                    inode_at(inode_table@, old(self).inumber as int).size as usize
                },
                ..*old(self)
            }),
    {
        let size = self.get_inode().size(inode_table) as usize;
        if offset <= size {
            self.byte_offset = offset;
        } else {
            self.byte_offset = size;
        }
    }

    /// The byte at the position, moving one byte on; None at the end of the file or when the
    /// block of the position cannot be read.
    pub fn next(&mut self, inode_table: &InodeTable, disk: &mut Disk) -> (r: Option<u8>)
        requires
            in_table(inode_table@, old(self).inumber as int),
            old(self).wf(old(disk)@, inode_at(inode_table@, old(self).inumber as int).size as int),
        ensures
            ({
                let size = inode_at(inode_table@, old(self).inumber as int).size as int;
                let off = old(self).byte_offset as int;
                &&& final(self).wf(old(disk)@, size)
                &&& final(self).inumber == old(self).inumber
                &&& final(self).data_blocks == old(self).data_blocks
                &&& if can_read_at(old(disk)@, old(self).data_blocks@, size, off) {
                    &&& r == Some(file_byte(old(disk)@, old(self).data_blocks@, off))
                    &&& final(self).byte_offset == off + 1
                } else {
                    &&& r is None
                    &&& final(self).byte_offset == off
                }
            }),
            final(disk)@ == old(disk)@,
            final(disk).mount_count() == old(disk).mount_count(),
            final(disk).path_view() == old(disk).path_view(),
    {
        let size = self.get_inode().size(inode_table);
        if self.byte_offset as u32 == size {
            return None;
        }
        let block_index = self.byte_offset / BLOCK_SIZE;
        let block_offset = self.byte_offset % BLOCK_SIZE;
        if block_index == self.curr_block_index {
            self.byte_offset += 1;
            return Some(self.curr_data_block.data[block_offset]);
        }
        if block_index < self.data_blocks.len() && self.data_blocks[block_index] > 0
            && (self.data_blocks[block_index] as usize) < disk.size() {
            let mut block = Block::new();
            disk.read(self.data_blocks[block_index] as usize, block.data_as_mut());
            self.curr_data_block = block;
            self.curr_block_index += 1;
            self.byte_offset += 1;
            return Some(self.curr_data_block.data[block_offset]);
        } else {
            None
        }
    }

    /// Reads up to `length` bytes into `block_data[0..]`, stopping where `next` gives nothing.
    /// Returns the number of bytes read.
    pub fn read_buffer(&mut self, block_data: &mut Vec<u8>, length: usize, inode_table: &InodeTable, disk: &mut Disk) -> (r: i64)
        requires
            in_table(inode_table@, old(self).inumber as int),
            old(self).wf(old(disk)@, inode_at(inode_table@, old(self).inumber as int).size as int),
            length <= old(block_data)@.len(),
        ensures
            ({
                let size = inode_at(inode_table@, old(self).inumber as int).size as int;
                let off = old(self).byte_offset as int;
                let blocks = old(self).data_blocks@;
                &&& 0 <= r <= length
                &&& final(block_data)@.len() == old(block_data)@.len()
                &&& forall|k: int| 0 <= k < r ==> #[trigger] final(block_data)@[k] == file_byte(old(disk)@, blocks, off + k)
                &&& forall|k: int| r <= k < old(block_data)@.len() ==> #[trigger] final(block_data)@[k] == old(block_data)@[k]
                &&& forall|k: int| 0 <= k < r ==> #[trigger] can_read_at(old(disk)@, blocks, size, off + k)
                &&& r < length ==> !can_read_at(old(disk)@, blocks, size, off + r)
                &&& final(self).wf(old(disk)@, size)
                &&& final(self).inumber == old(self).inumber
                &&& final(self).data_blocks == old(self).data_blocks
                &&& final(self).byte_offset == off + r
            }),
            final(disk)@ == old(disk)@,
            final(disk).mount_count() == old(disk).mount_count(),
            final(disk).path_view() == old(disk).path_view(),
    {
        let ghost size = inode_at(inode_table@, self.inumber as int).size as int;
        let ghost off = self.byte_offset as int;
        let ghost blocks = self.data_blocks@;
        let ghost d = disk@;
        let mut i: usize = 0;
        while i < length
            invariant_except_break
                i <= length,
                forall|k: int| 0 <= k < i ==> #[trigger] can_read_at(d, blocks, size, off + k),
            invariant
                length <= block_data@.len(),
                block_data@.len() == old(block_data)@.len(),
                in_table(inode_table@, self.inumber as int),
                size == inode_at(inode_table@, self.inumber as int).size as int,
                self.wf(d, size),
                self.inumber == old(self).inumber,
                self.data_blocks == old(self).data_blocks,
                blocks == self.data_blocks@,
                self.byte_offset == off + i,
                disk@ == d,
                forall|k: int| 0 <= k < i ==> #[trigger] block_data@[k] == file_byte(d, blocks, off + k),
                forall|k: int| i <= k < block_data@.len() ==> #[trigger] block_data@[k] == old(block_data)@[k],
                disk.mount_count() == old(disk).mount_count(),
                disk.path_view() == old(disk).path_view(),
            ensures
                i <= length,
                forall|k: int| 0 <= k < i ==> #[trigger] can_read_at(d, blocks, size, off + k),
                i < length ==> !can_read_at(d, blocks, size, off + i),
            decreases length - i,
        {
            match self.next(inode_table, disk) {
                Some(byte) => {
                    block_data.set(i, byte);
                    i += 1;
                },
                None => {
                    break;
                },
            }
        }
        i as i64
    }

    /// When the position is inside a block, reads the bytes from it into `block_data[0..]`:
    /// as many as the offset of the position in its block, plus one, as far as the file and
    /// the buffer go. Returns whether it read, and how many bytes.
    pub fn align_to_block(&mut self, block_data: &mut Vec<u8>, inode_table: &InodeTable, disk: &mut Disk) -> (r: (bool, i64))
        requires
            in_table(inode_table@, old(self).inumber as int),
            old(self).wf(old(disk)@, inode_at(inode_table@, old(self).inumber as int).size as int),
        ensures
            ({
                let size = inode_at(inode_table@, old(self).inumber as int).size as int;
                let off = old(self).byte_offset as int;
                let blocks = old(self).data_blocks@;
                let n = off % BLOCK_SIZE as int;
                &&& n == 0 ==> r == (true, 0i64) && *final(self) == *old(self) && final(block_data)@ == old(block_data)@
                &&& n != 0 && old(block_data)@.len() < n ==> r == (false, -1i64)
                    && *final(self) == *old(self) && final(block_data)@ == old(block_data)@
                &&& n != 0 && old(block_data)@.len() >= n ==> {
                    &&& r.0
                    &&& 0 <= r.1 <= n + 1
                    &&& r.1 <= old(block_data)@.len()
                    &&& forall|k: int| 0 <= k < r.1 ==> #[trigger] final(block_data)@[k] == file_byte(old(disk)@, blocks, off + k)
                    &&& r.1 < n + 1 && r.1 < old(block_data)@.len() ==> !can_read_at(old(disk)@, blocks, size, off + r.1)
                    &&& final(self).byte_offset == off + r.1
                }
                &&& final(block_data)@.len() == old(block_data)@.len()
                &&& final(self).wf(old(disk)@, size)
                &&& final(self).inumber == old(self).inumber
                &&& final(self).data_blocks == old(self).data_blocks
            }),
            final(disk)@ == old(disk)@,
            final(disk).mount_count() == old(disk).mount_count(),
            final(disk).path_view() == old(disk).path_view(),
    {
        let n = self.byte_offset % BLOCK_SIZE;
        if n == 0 {
            return (true, 0);
        }
        if block_data.len() < n {
            return (false, -1);
        }
        let want = if n + 1 <= block_data.len() { n + 1 } else { block_data.len() };
        let got = self.read_buffer(block_data, want, inode_table, disk);
        (true, got)
    }
}

} // verus!
