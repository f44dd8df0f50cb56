use vstd::prelude::*;
use crate::constants::{BLOCK_SIZE, INODES_IN_BLOCK, POINTERS_PER_BLOCK, INODES_FREE_LIST, ROOT_FREE_LIST};
use crate::disk::Disk;
use crate::utility::{fetch_block, save_meta_data, stores_meta, MetaPart};
use crate::codec::{le_u32, byte_of, zero_block, lemma_u32_bytes, read_u32_le, write_u32_le, put_u32, lemma_put_get, lemma_put_get_other};
use crate::inode::Inode;

verus! {

/// Summary of the file system, stored in the first words of block 0.
#[derive(Copy, Clone, Debug)]
pub struct Superblock {
    pub magic_number: u32,
    pub blocks: u32,
    pub current_block_index: u32,
    pub free_blocks: u32,
    pub free_inodes: u32,
    pub inodes: u32,
}

/// One block of the inode table: its inodes and the links to its neighbours.
#[derive(Copy, Clone, Debug)]
pub struct InodeBlock {
    pub inodes: [Inode; INODES_IN_BLOCK],
    pub next_block: u32,
    pub prev_block: u32,
    pub temp: [u32; 6],
}

/// The raw bytes of one disk block. The typed views (superblock, inode block,
/// pointers) read and write these bytes in little-endian order.
#[derive(Copy, Clone)]
pub struct Block {
    pub data: [u8; BLOCK_SIZE],
}

impl View for Block {
    type V = Seq<u8>;

    open spec fn view(&self) -> Seq<u8> {
        self.data@
    }
}

/// The superblock that the bytes `s` hold.
pub open spec fn spec_superblock(s: Seq<u8>) -> Superblock {
    Superblock {
        magic_number: le_u32(s, 0),
        blocks: le_u32(s, 4),
        current_block_index: le_u32(s, 8),
        free_blocks: le_u32(s, 12),
        free_inodes: le_u32(s, 16),
        inodes: le_u32(s, 20),
    }
}

/// The inode that the 32 bytes of `s` starting at `off` hold.
pub open spec fn spec_inode(s: Seq<u8>, off: int) -> Inode {
    Inode {
        valid: le_u32(s, off),
        size: le_u32(s, off + 4),
        ctime: le_u32(s, off + 8),
        atime: le_u32(s, off + 12),
        blk_pointer_level: le_u32(s, off + 16),
        level_index: le_u32(s, off + 20),
        data_block: le_u32(s, off + 24),
        total_data_blocks: le_u32(s, off + 28),
    }
}

/// The block pointers that the bytes `s` hold.
pub open spec fn spec_pointers(s: Seq<u8>) -> Seq<u32> {
    Seq::new(POINTERS_PER_BLOCK as nat, |i: int| le_u32(s, 4 * i))
}

/// The bytes `s` hold the inode block `ib`.
pub open spec fn encodes_inode_block(s: Seq<u8>, ib: InodeBlock) -> bool {
    &&& s.len() == BLOCK_SIZE
    &&& forall|k: int| 0 <= k < INODES_IN_BLOCK ==> #[trigger] ib.inodes@[k] == spec_inode(s, 32 * k)
    &&& ib.next_block == le_u32(s, 4064)
    &&& ib.prev_block == le_u32(s, 4068)
    &&& forall|t: int| 0 <= t < 6 ==> #[trigger] ib.temp@[t] == le_u32(s, 4072 + 4 * t)
}

/// An inode block is determined by its bytes: two inode blocks that the same bytes hold are equal.
pub proof fn law_inode_block_bytes_determine_block(s: Seq<u8>, a: InodeBlock, b: InodeBlock)
    requires
        encodes_inode_block(s, a),
        encodes_inode_block(s, b),
    ensures
        a == b,
{
    assert(a.inodes@ =~= b.inodes@);
    assert(a.temp@ =~= b.temp@);
    vstd::array::axiom_array_ext_equal(a.inodes, b.inodes);
    vstd::array::axiom_array_ext_equal(a.temp, b.temp);
}

/// The bytes that a zero block holds read as a superblock of zeros and as null pointers.
pub proof fn law_zero_block_views()
    ensures
        spec_superblock(zero_block()) == (Superblock {
            magic_number: 0,
            blocks: 0,
            current_block_index: 0,
            free_blocks: 0,
            free_inodes: 0,
            inodes: 0,
        }),
        forall|i: int| 0 <= i < POINTERS_PER_BLOCK ==> #[trigger] spec_pointers(zero_block())[i] == 0,
{
}

/// The eight words of an inode in the order the disk holds them.
pub open spec fn inode_words(x: Inode) -> Seq<u32> {
    seq![x.valid, x.size, x.ctime, x.atime, x.blk_pointer_level, x.level_index, x.data_block, x.total_data_blocks]
}

/// Stores the inode `x` in the 32 bytes of `d` that start at `off`.
fn write_inode(d: &mut [u8; BLOCK_SIZE], off: usize, x: Inode)
    requires
        off + 32 <= BLOCK_SIZE,
    ensures
        spec_inode(final(d)@, off as int) == x,
        forall|i: int| 0 <= i < BLOCK_SIZE && !(off <= i < off + 32) ==> #[trigger] final(d)@[i] == old(d)@[i],
{
    let words: [u32; 8] = [x.valid, x.size, x.ctime, x.atime, x.blk_pointer_level, x.level_index, x.data_block, x.total_data_blocks];
    assert(words@ =~= inode_words(x));
    let mut w: usize = 0;
    while w < 8
        invariant
            w <= 8,
            off + 32 <= BLOCK_SIZE,
            words@ == inode_words(x),
            d@.len() == BLOCK_SIZE,
            forall|j: int| 0 <= j < w ==> #[trigger] le_u32(d@, off + 4 * j) == words@[j],
            forall|i: int| 0 <= i < BLOCK_SIZE && !(off <= i < off + 32) ==> #[trigger] d@[i] == old(d)@[i],
        decreases 8 - w,
    {
        let ghost s = d@;
        write_u32_le(d, off + 4 * w, words[w]);
        proof {
            lemma_put_get(s, off + 4 * w, words@[w as int]);
            assert forall|j: int| 0 <= j < w + 1 implies #[trigger] le_u32(d@, off + 4 * j) == words@[j] by {
                if j < w {
                    lemma_put_get_other(s, off + 4 * w, words@[w as int], off + 4 * j);
                }
            }
        }
        w += 1;
    }
    proof {
        assert(le_u32(d@, off + 4 * 0) == words@[0]);
        assert(le_u32(d@, off + 4 * 1) == words@[1]);
        assert(le_u32(d@, off + 4 * 2) == words@[2]);
        assert(le_u32(d@, off + 4 * 3) == words@[3]);
        assert(le_u32(d@, off + 4 * 4) == words@[4]);
        assert(le_u32(d@, off + 4 * 5) == words@[5]);
        assert(le_u32(d@, off + 4 * 6) == words@[6]);
        assert(le_u32(d@, off + 4 * 7) == words@[7]);
    }
}

/// Reads the inode held in the 32 bytes of `d` that start at `off`.
fn read_inode(d: &[u8; BLOCK_SIZE], off: usize) -> (r: Inode)
    requires
        off + 32 <= BLOCK_SIZE,
    ensures
        r == spec_inode(d@, off as int),
{
    Inode {
        valid: read_u32_le(d, off),
        size: read_u32_le(d, off + 4),
        ctime: read_u32_le(d, off + 8),
        atime: read_u32_le(d, off + 12),
        blk_pointer_level: read_u32_le(d, off + 16),
        level_index: read_u32_le(d, off + 20),
        data_block: read_u32_le(d, off + 24),
        total_data_blocks: read_u32_le(d, off + 28),
    }
}

/// Two byte sequences that agree on the 32 bytes at `off` hold the same inode there.
pub proof fn lemma_inode_agree(s: Seq<u8>, t: Seq<u8>, off: int)
    requires
        0 <= off,
        off + 32 <= s.len(),
        off + 32 <= t.len(),
        forall|i: int| off <= i < off + 32 ==> s[i] == t[i],
    ensures
        spec_inode(s, off) == spec_inode(t, off),
{
    assert(s[off + 0] == t[off + 0]);
    assert(s[off + 1] == t[off + 1]);
    assert(s[off + 2] == t[off + 2]);
    assert(s[off + 3] == t[off + 3]);
    assert(s[off + 4] == t[off + 4]);
    assert(s[off + 5] == t[off + 5]);
    assert(s[off + 6] == t[off + 6]);
    assert(s[off + 7] == t[off + 7]);
    assert(s[off + 8] == t[off + 8]);
    assert(s[off + 9] == t[off + 9]);
    assert(s[off + 10] == t[off + 10]);
    assert(s[off + 11] == t[off + 11]);
    assert(s[off + 12] == t[off + 12]);
    assert(s[off + 13] == t[off + 13]);
    assert(s[off + 14] == t[off + 14]);
    assert(s[off + 15] == t[off + 15]);
    assert(s[off + 16] == t[off + 16]);
    assert(s[off + 17] == t[off + 17]);
    assert(s[off + 18] == t[off + 18]);
    assert(s[off + 19] == t[off + 19]);
    assert(s[off + 20] == t[off + 20]);
    assert(s[off + 21] == t[off + 21]);
    assert(s[off + 22] == t[off + 22]);
    assert(s[off + 23] == t[off + 23]);
    assert(s[off + 24] == t[off + 24]);
    assert(s[off + 25] == t[off + 25]);
    assert(s[off + 26] == t[off + 26]);
    assert(s[off + 27] == t[off + 27]);
    assert(s[off + 28] == t[off + 28]);
    assert(s[off + 29] == t[off + 29]);
    assert(s[off + 30] == t[off + 30]);
    assert(s[off + 31] == t[off + 31]);
}

/// Stores the links and the spare words of an inode block in the last 32 bytes of `d`.
fn write_links(d: &mut [u8; BLOCK_SIZE], inode_block: &InodeBlock)
    ensures
        forall|i: int| 0 <= i < 4064 ==> #[trigger] final(d)@[i] == old(d)@[i],
        le_u32(final(d)@, 4064) == inode_block.next_block,
        le_u32(final(d)@, 4068) == inode_block.prev_block,
        forall|j: int| 0 <= j < 6 ==> #[trigger] le_u32(final(d)@, 4072 + 4 * j) == inode_block.temp@[j],
{
    let ghost s0 = d@;
    write_u32_le(d, 4064, inode_block.next_block);
    let ghost s1 = d@;
    write_u32_le(d, 4068, inode_block.prev_block);
    proof {
        lemma_put_get(s0, 4064, inode_block.next_block);
        lemma_put_get(s1, 4068, inode_block.prev_block);
        lemma_put_get_other(s1, 4068, inode_block.prev_block, 4064);
    }
    let mut t: usize = 0;
    while t < 6
        invariant
            t <= 6,
            d@.len() == BLOCK_SIZE,
            forall|i: int| 0 <= i < 4064 ==> #[trigger] d@[i] == s0[i],
            le_u32(d@, 4064) == inode_block.next_block,
            le_u32(d@, 4068) == inode_block.prev_block,
            forall|j: int| 0 <= j < t ==> #[trigger] le_u32(d@, 4072 + 4 * j) == inode_block.temp@[j],
        decreases 6 - t,
    {
        let ghost s = d@;
        write_u32_le(d, 4072 + 4 * t, inode_block.temp[t]);
        proof {
            lemma_put_get(s, 4072 + 4 * t, inode_block.temp@[t as int]);
            lemma_put_get_other(s, 4072 + 4 * t, inode_block.temp@[t as int], 4064);
            lemma_put_get_other(s, 4072 + 4 * t, inode_block.temp@[t as int], 4068);
            assert forall|j: int| 0 <= j < t + 1 implies #[trigger] le_u32(d@, 4072 + 4 * j) == inode_block.temp@[j] by {
                if j < t {
                    lemma_put_get_other(s, 4072 + 4 * t, inode_block.temp@[t as int], 4072 + 4 * j);
                }
            }
        }
        t += 1;
    }
}

impl Block {
    /// A block of zero bytes.
    pub fn new() -> (r: Block)
        ensures
            r@ == zero_block(),
    {
        let r = Block { data: [0u8; BLOCK_SIZE] };
        assert(r@ =~= zero_block());
        r
    }

    /// A copy of the bytes of the block.
    pub fn data(&self) -> (r: [u8; BLOCK_SIZE])
        ensures
            r@ == self@,
    {
        self.data
    }

    /// The bytes of the block, to change in place.
    pub fn data_as_mut(&mut self) -> (r: &mut [u8; BLOCK_SIZE])
        ensures
            *r == old(self).data,
            final(self).data == *final(r),
    {
        &mut self.data
    }

    /// The bytes of the block, to read.
    pub fn data_as_ref(&self) -> (r: &[u8; BLOCK_SIZE])
        ensures
            *r == self.data,
    {
        &self.data
    }

    /// Replaces the bytes of the block.
    pub fn set_data(&mut self, data: [u8; BLOCK_SIZE])
        ensures
            final(self)@ == data@,
    {
        self.data = data;
    }

    /// The superblock that the first bytes of the block hold.
    pub fn superblock(&self) -> (r: Superblock)
        ensures
            r == spec_superblock(self@),
    {
        Superblock {
            magic_number: read_u32_le(&self.data, 0),
            blocks: read_u32_le(&self.data, 4),
            current_block_index: read_u32_le(&self.data, 8),
            free_blocks: read_u32_le(&self.data, 12),
            free_inodes: read_u32_le(&self.data, 16),
            inodes: read_u32_le(&self.data, 20),
        }
    }

    /// Stores a superblock in the first bytes of the block; the other bytes stay.
    pub fn set_superblock(&mut self, superblock: Superblock)
        ensures
            spec_superblock(final(self)@) == superblock,
            forall|i: int| 24 <= i < BLOCK_SIZE ==> #[trigger] final(self)@[i] == old(self)@[i],
    {
        write_u32_le(&mut self.data, 0, superblock.magic_number);
        write_u32_le(&mut self.data, 4, superblock.blocks);
        write_u32_le(&mut self.data, 8, superblock.current_block_index);
        write_u32_le(&mut self.data, 12, superblock.free_blocks);
        write_u32_le(&mut self.data, 16, superblock.free_inodes);
        write_u32_le(&mut self.data, 20, superblock.inodes);
        proof {
            lemma_u32_bytes(superblock.magic_number);
            lemma_u32_bytes(superblock.blocks);
            lemma_u32_bytes(superblock.current_block_index);
            lemma_u32_bytes(superblock.free_blocks);
            lemma_u32_bytes(superblock.free_inodes);
            lemma_u32_bytes(superblock.inodes);
        }
    }

    /// The pointer in slot `i` of the block.
    pub fn pointer(&self, i: usize) -> (r: u32)
        requires
            i < POINTERS_PER_BLOCK,
        ensures
            r == spec_pointers(self@)[i as int],
    {
        read_u32_le(&self.data, 4 * i)
    }

    /// Stores `value` in pointer slot `i`; the other slots stay.
    pub fn set_pointer(&mut self, i: usize, value: u32)
        requires
            i < POINTERS_PER_BLOCK,
        ensures
            spec_pointers(final(self)@) == spec_pointers(old(self)@).update(i as int, value),
            final(self)@ == put_u32(old(self)@, 4 * i, value),
    {
        let ghost s = self@;
        write_u32_le(&mut self.data, 4 * i, value);
        proof {
            lemma_put_get(s, 4 * i, value);
            assert forall|j: int| 0 <= j < POINTERS_PER_BLOCK && j != i implies #[trigger] le_u32(
                put_u32(s, 4 * i, value),
                4 * j,
            ) == le_u32(s, 4 * j) by {
                lemma_put_get_other(s, 4 * i, value, 4 * j);
            }
            assert(spec_pointers(self@) =~= spec_pointers(s).update(i as int, value));
        }
    }

    /// All pointer slots of the block.
    pub fn pointers(&self) -> (r: [u32; POINTERS_PER_BLOCK])
        ensures
            r@ == spec_pointers(self@),
    {
        let mut r = [0u32; POINTERS_PER_BLOCK];
        let mut i: usize = 0;
        while i < POINTERS_PER_BLOCK
            invariant
                i <= POINTERS_PER_BLOCK,
                r@.len() == POINTERS_PER_BLOCK,
                forall|j: int| 0 <= j < i ==> #[trigger] r@[j] == le_u32(self@, 4 * j),
            decreases POINTERS_PER_BLOCK - i,
        {
            r[i] = read_u32_le(&self.data, 4 * i);
            i += 1;
        }
        assert(r@ =~= spec_pointers(self@));
        r
    }

    /// Stores all pointer slots of the block.
    pub fn set_pointers(&mut self, pointers: [u32; POINTERS_PER_BLOCK])
        ensures
            spec_pointers(final(self)@) == pointers@,
    {
        let mut i: usize = 0;
        while i < POINTERS_PER_BLOCK
            invariant
                i <= POINTERS_PER_BLOCK,
                self@.len() == BLOCK_SIZE,
                forall|j: int| 0 <= j < i ==> #[trigger] le_u32(self@, 4 * j) == pointers@[j],
            decreases POINTERS_PER_BLOCK - i,
        {
            let ghost s = self@;
            write_u32_le(&mut self.data, 4 * i, pointers[i]);
            proof {
                lemma_put_get(s, 4 * i, pointers@[i as int]);
                assert forall|j: int| 0 <= j < i + 1 implies #[trigger] le_u32(self@, 4 * j)
                    == pointers@[j] by {
                    if j < i {
                        lemma_put_get_other(s, 4 * i, pointers@[i as int], 4 * j);
                    }
                }
            }
            i += 1;
        }
        assert(spec_pointers(self@) =~= pointers@);
    }

    /// The inode block that the bytes of the block hold.
    pub fn inode_block(&self) -> (r: InodeBlock)
        ensures
            encodes_inode_block(self@, r),
    {
        let blank = Inode { valid: 0, size: 0, ctime: 0, atime: 0, blk_pointer_level: 0, level_index: 0, data_block: 0, total_data_blocks: 0 };
        let mut inodes = [blank; INODES_IN_BLOCK];
        let mut k: usize = 0;
        while k < INODES_IN_BLOCK
            invariant
                k <= INODES_IN_BLOCK,
                inodes@.len() == INODES_IN_BLOCK,
                forall|j: int| 0 <= j < k ==> #[trigger] inodes@[j] == spec_inode(self@, 32 * j),
            decreases INODES_IN_BLOCK - k,
        {
            inodes[k] = read_inode(&self.data, 32 * k);
            k += 1;
        }
        let mut temp = [0u32; 6];
        let mut t: usize = 0;
        while t < 6
            invariant
                t <= 6,
                temp@.len() == 6,
                forall|j: int| 0 <= j < t ==> #[trigger] temp@[j] == le_u32(self@, 4072 + 4 * j),
            decreases 6 - t,
        {
            temp[t] = read_u32_le(&self.data, 4072 + 4 * t);
            t += 1;
        }
        InodeBlock {
            inodes,
            next_block: read_u32_le(&self.data, 4064),
            prev_block: read_u32_le(&self.data, 4068),
            temp,
        }
    }

    /// Stores the inode `inode` in slot `k` of the inode block that the block holds; the other bytes stay.
    pub fn set_inode(&mut self, k: usize, inode: Inode)
        requires
            k < INODES_IN_BLOCK,
        ensures
            spec_inode(final(self)@, 32 * k) == inode,
            forall|i: int| 0 <= i < BLOCK_SIZE && !(32 * k <= i < 32 * k + 32) ==> #[trigger] final(self)@[i] == old(self)@[i],
    {
        write_inode(&mut self.data, 32 * k, inode);
    }

    /// Stores a whole inode block in the block.
    pub fn set_inode_block(&mut self, inode_block: InodeBlock)
        ensures
            encodes_inode_block(final(self)@, inode_block),
    {
        let mut k: usize = 0;
        while k < INODES_IN_BLOCK
            invariant
                k <= INODES_IN_BLOCK,
                self@.len() == BLOCK_SIZE,
                forall|j: int| 0 <= j < k ==> #[trigger] spec_inode(self@, 32 * j) == inode_block.inodes@[j],
            decreases INODES_IN_BLOCK - k,
        {
            let ghost s = self@;
            write_inode(&mut self.data, 32 * k, inode_block.inodes[k]);
            proof {
                assert forall|j: int| 0 <= j < k implies #[trigger] spec_inode(self@, 32 * j) == inode_block.inodes@[j] by {
                    lemma_inode_agree(s, self@, 32 * j);
                }
            }
            k += 1;
        }
        let ghost s1 = self@;
        write_links(&mut self.data, &inode_block);
        proof {
            assert forall|k: int| 0 <= k < INODES_IN_BLOCK implies #[trigger] inode_block.inodes@[k] == spec_inode(self@, 32 * k) by {
                lemma_inode_agree(s1, self@, 32 * k);
            }
        }
    }
}

} // verus!

verus! {

/// The metadata blocks of a file system as held in memory.
#[derive(Copy, Clone)]
pub struct MetaData {
    pub superblock: Superblock,
    pub inodes_root_block: Block,
    pub root_free_list: Block,
    pub inodes_free_list: Block,
}

} // verus!

verus! {

/// The pointers of the head block of the free-block list.
pub open spec fn free_list_pointers(m: MetaData) -> Seq<u32> {
    spec_pointers(m.root_free_list@)
}

/// Slot of the head block that the next allocation takes, when free blocks are recorded.
pub open spec fn free_slot(free_count: u32) -> int {
    (free_count - 1) % (POINTERS_PER_BLOCK - 1) as int
}

/// The allocation moves the head of the free list to the block its last slot names:
/// the head block is used up and names a next block that lies on the disk.
pub open spec fn free_list_moves_on(m: MetaData, disk_len: nat) -> bool {
    let p = free_list_pointers(m);
    &&& m.superblock.free_blocks != 0
    &&& free_slot(m.superblock.free_blocks) == POINTERS_PER_BLOCK - 2
    &&& p[0] == 0
    &&& p[POINTERS_PER_BLOCK - 2] == 0
    &&& p[POINTERS_PER_BLOCK - 1] > 0
    &&& p[POINTERS_PER_BLOCK - 1] < disk_len
}

/// `m2` is `m1` with another superblock.
pub open spec fn same_blocks(m1: MetaData, m2: MetaData) -> bool {
    &&& m2.inodes_root_block == m1.inodes_root_block
    &&& m2.root_free_list == m1.root_free_list
    &&& m2.inodes_free_list == m1.inodes_free_list
}

/// Allocating a block from metadata `m` on disk `d` gives `r`, metadata `m2` and disk `d2`.
pub open spec fn allocates(m: MetaData, d: Seq<Seq<u8>>, r: i64, m2: MetaData, d2: Seq<Seq<u8>>) -> bool {
    let sb = m.superblock;
    let p = free_list_pointers(m);
    if sb.free_blocks == 0 {
        if sb.current_block_index < sb.blocks {
            &&& r == sb.current_block_index
            &&& m2.superblock == (Superblock { current_block_index: (sb.current_block_index + 1) as u32, ..sb })
            &&& same_blocks(m, m2)
            &&& stores_meta(d, d2, m2, MetaPart::Superblock)
        } else {
            &&& r == -1
            &&& m2 == m
            &&& d2 == d
        }
    } else {
        &&& if free_list_moves_on(m, d.len()) {
            &&& r == p[POINTERS_PER_BLOCK - 1]
            &&& m2.root_free_list@ == d[p[POINTERS_PER_BLOCK - 1] as int]
            &&& m2.superblock == sb
        } else {
            &&& r == p[free_slot(sb.free_blocks)]
            &&& m2.root_free_list@ == put_u32(m.root_free_list@, 4 * free_slot(sb.free_blocks), 0)
            &&& m2.superblock == (Superblock { free_blocks: (sb.free_blocks - 1) as u32, ..sb })
        }
        &&& m2.inodes_root_block == m.inodes_root_block
        &&& m2.inodes_free_list == m.inodes_free_list
        &&& stores_meta(d, d2, m2, MetaPart::All)
    }
}

/// The block that an allocation from metadata `m` on disk `d` returns (-1 when none is left).
pub open spec fn allocation(m: MetaData, d: Seq<Seq<u8>>) -> i64 {
    allocation_from(m.superblock, m.root_free_list@, d.len())
}

/// The block that an allocation returns, from the superblock `sb` and the head block `head` of
/// the free list, on a disk of `disk_len` blocks.
pub open spec fn allocation_from(sb: Superblock, head: Seq<u8>, disk_len: nat) -> i64 {
    let p = spec_pointers(head);
    let moves = {
        &&& free_slot(sb.free_blocks) == POINTERS_PER_BLOCK - 2
        &&& p[0] == 0
        &&& p[POINTERS_PER_BLOCK - 2] == 0
        &&& p[POINTERS_PER_BLOCK - 1] > 0
        &&& p[POINTERS_PER_BLOCK - 1] < disk_len
    };
    if sb.free_blocks == 0 {
        if sb.current_block_index < sb.blocks { sb.current_block_index as i64 } else { -1i64 }
    } else if moves {
        p[POINTERS_PER_BLOCK - 1] as i64
    } else {
        p[free_slot(sb.free_blocks)] as i64
    }
}

/// An allocation returns the block that `allocation` names.
pub proof fn lemma_allocation(m: MetaData, d: Seq<Seq<u8>>, r: i64, m2: MetaData, d2: Seq<Seq<u8>>)
    requires
        allocates(m, d, r, m2, d2),
    ensures
        r == allocation(m, d),
{
}

/// First slot at or after `k` of the pointers `p` that holds zero, or `POINTERS_PER_BLOCK`.
pub open spec fn first_zero_from(p: Seq<u32>, k: int) -> int
    decreases POINTERS_PER_BLOCK - k,
{
    if k >= POINTERS_PER_BLOCK || k < 0 {
        POINTERS_PER_BLOCK as int
    } else if p[k] == 0 {
        k
    } else {
        first_zero_from(p, k + 1)
    }
}

/// State of the free-block list while blocks are given back.
pub struct FreeState {
    pub head: Seq<u8>,
    pub free_blocks: int,
    pub slot: int,
    pub disk: Seq<Seq<u8>>,
    pub stopped: bool,
}

/// The free-list state after giving back block `b`.
pub open spec fn free_step(st: FreeState, b: u32) -> FreeState {
    if st.stopped {
        st
    } else if st.slot >= POINTERS_PER_BLOCK - 1 {
        if b > 0 {
            let head = put_u32(zero_block(), 4 * (POINTERS_PER_BLOCK - 1), b);
            FreeState {
                head,
                slot: 0,
                disk: st.disk.update(b as int, st.head).update(ROOT_FREE_LIST as int, head),
                ..st
            }
        } else {
            FreeState { stopped: true, ..st }
        }
    } else {
        FreeState {
            head: put_u32(st.head, 4 * st.slot, b),
            free_blocks: st.free_blocks + 1,
            slot: st.slot + 1,
            ..st
        }
    }
}

/// The free-list state after giving back the first `n` blocks of `bs`.
pub open spec fn free_fold(m: MetaData, d: Seq<Seq<u8>>, bs: Seq<u32>, n: int) -> FreeState
    decreases n,
{
    if n <= 0 {
        FreeState {
            head: m.root_free_list@,
            free_blocks: m.superblock.free_blocks as int,
            slot: first_zero_from(free_list_pointers(m), 0),
            disk: d,
            stopped: false,
        }
    } else {
        free_step(free_fold(m, d, bs, n - 1), bs[n - 1])
    }
}

/// Giving back the blocks `bs` from metadata `m` on disk `d` gives metadata `m2` and disk `d2`.
pub open spec fn frees(m: MetaData, d: Seq<Seq<u8>>, bs: Seq<u32>, m2: MetaData, d2: Seq<Seq<u8>>) -> bool {
    let st = free_fold(m, d, bs, bs.len() as int);
    &&& m2.root_free_list@ == st.head
    &&& m2.superblock == (Superblock { free_blocks: st.free_blocks as u32, ..m.superblock })
    &&& m2.inodes_root_block == m.inodes_root_block
    &&& m2.inodes_free_list == m.inodes_free_list
    &&& stores_meta(st.disk.update(ROOT_FREE_LIST as int, st.head), d2, m2, MetaPart::Superblock)
}

/// Hands out and takes back disk blocks through the metadata's free-block list.
pub struct BlockManager {
    pub meta_data: MetaData,
}

impl BlockManager {
    pub fn new(meta_data: MetaData) -> (r: BlockManager)
        ensures
            r.meta_data == meta_data,
    {
        BlockManager { meta_data }
    }

    /// Takes a block: the next never-used block when the free list is empty, else the block
    /// the free list holds last. Returns -1 when no block is left.
    pub fn allocate_free_block(&mut self, disk: &mut Disk) -> (r: i64)
        requires
            INODES_FREE_LIST < old(disk)@.len(),
        ensures
            allocates(old(self).meta_data, old(disk)@, r, final(self).meta_data, final(disk)@),
            final(disk)@.len() == old(disk)@.len(),
            final(disk).mount_count() == old(disk).mount_count(),
            final(disk).path_view() == old(disk).path_view(),
    {
        if self.meta_data.superblock.free_blocks == 0 {
            let free_blk = self.meta_data.superblock.current_block_index;
            if free_blk < self.meta_data.superblock.blocks {
                self.meta_data.superblock.current_block_index += 1;
                self.save_meta_data(disk, MetaPart::Superblock);
                return free_blk as i64;
            }
        } else {
            let n = (self.meta_data.superblock.free_blocks - 1) as usize;
            let i = n % (POINTERS_PER_BLOCK - 1);
            let mut changed_root = false;
            let mut next_ptr: u32 = 0;
            if i == POINTERS_PER_BLOCK - 2 && self.meta_data.root_free_list.pointer(0) == 0
                && self.meta_data.root_free_list.pointer(POINTERS_PER_BLOCK - 2) == 0 {
                next_ptr = self.meta_data.root_free_list.pointer(POINTERS_PER_BLOCK - 1);
                if next_ptr > 0 && (next_ptr as usize) < disk.size() {
                    let block = fetch_block(disk, next_ptr as usize);
                    self.meta_data.root_free_list = block;
                    changed_root = true;
                }
            }
            let free_blk: u32;
            if changed_root {
                free_blk = next_ptr;
            } else {
                free_blk = self.meta_data.root_free_list.pointer(i);
                self.meta_data.root_free_list.set_pointer(i, 0);
                self.meta_data.superblock.free_blocks = self.meta_data.superblock.free_blocks - 1;
            }
            self.save_meta_data(disk, MetaPart::All);
            return free_blk as i64;
        }
        -1
    }

    /// Gives the blocks `blocks` back to the free list. When the head block is full, the next
    /// given block stores it and a new head block names that block.
    pub fn free_blocks(&mut self, blocks: Vec<u32>, disk: &mut Disk)
        requires
            INODES_FREE_LIST < old(disk)@.len(),
            old(self).meta_data.superblock.free_blocks + blocks@.len() <= u32::MAX,
            forall|k: int| 0 <= k < blocks@.len() && #[trigger] starts_head(old(self).meta_data, old(disk)@, blocks@, k)
                ==> blocks@[k] < old(disk)@.len(),
        ensures
            frees(old(self).meta_data, old(disk)@, blocks@, final(self).meta_data, final(disk)@),
            final(disk)@.len() == old(disk)@.len(),
            final(disk).mount_count() == old(disk).mount_count(),
            final(disk).path_view() == old(disk).path_view(),
    {
        let ghost m0 = self.meta_data;
        let ghost d0 = disk@;
        let mut i: usize = 0;
        loop
            invariant
                i <= POINTERS_PER_BLOCK,
                self.meta_data == m0,
                first_zero_from(free_list_pointers(m0), 0) == first_zero_from(free_list_pointers(m0), i as int),
            ensures
                i <= POINTERS_PER_BLOCK,
                self.meta_data == m0,
                first_zero_from(free_list_pointers(m0), 0) == first_zero_from(free_list_pointers(m0), i as int),
                i == POINTERS_PER_BLOCK || free_list_pointers(m0)[i as int] == 0,
            decreases POINTERS_PER_BLOCK - i,
        {
            if i == POINTERS_PER_BLOCK {
                break;
            }
            if self.meta_data.root_free_list.pointer(i) == 0 {
                break;
            }
            i += 1;
        }
        proof {
            assert(first_zero_from(free_list_pointers(m0), i as int) == i as int);
        }
        let mut k: usize = 0;
        while k < blocks.len()
            invariant_except_break
                k <= blocks@.len(),
                INODES_FREE_LIST < disk@.len(),
                disk@.len() == d0.len(),
                forall|j: int| 0 <= j < blocks@.len() && #[trigger] starts_head(m0, d0, blocks@, j) ==> blocks@[j] < d0.len(),
                m0.superblock.free_blocks + blocks@.len() <= u32::MAX,
                ({
                    let st = free_fold(m0, d0, blocks@, k as int);
                    &&& !st.stopped
                    &&& st.head == self.meta_data.root_free_list@
                    &&& st.free_blocks == self.meta_data.superblock.free_blocks
                    &&& st.free_blocks <= m0.superblock.free_blocks + k
                    &&& st.slot == i
                    &&& st.disk == disk@
                }),
                i <= POINTERS_PER_BLOCK,
                self.meta_data.superblock == (Superblock { free_blocks: self.meta_data.superblock.free_blocks, ..m0.superblock }),
                self.meta_data.inodes_root_block == m0.inodes_root_block,
                self.meta_data.inodes_free_list == m0.inodes_free_list,
                disk.mount_count() == old(disk).mount_count(),
                disk.path_view() == old(disk).path_view(),
            ensures
                ({
                    let st = free_fold(m0, d0, blocks@, blocks@.len() as int);
                    &&& st.head == self.meta_data.root_free_list@
                    &&& st.free_blocks == self.meta_data.superblock.free_blocks
                    &&& st.disk == disk@
                }),
                INODES_FREE_LIST < disk@.len(),
                disk@.len() == d0.len(),
                self.meta_data.superblock == (Superblock { free_blocks: self.meta_data.superblock.free_blocks, ..m0.superblock }),
                self.meta_data.inodes_root_block == m0.inodes_root_block,
                self.meta_data.inodes_free_list == m0.inodes_free_list,
                disk.mount_count() == old(disk).mount_count(),
                disk.path_view() == old(disk).path_view(),
            decreases blocks@.len() - k,
        {
            let b = blocks[k];
            if i >= POINTERS_PER_BLOCK - 1 {
                if b > 0 {
                    proof {
                        assert(starts_head(m0, d0, blocks@, k as int));
                    }
                    disk.write(b as usize, self.meta_data.root_free_list.data_as_ref());
                    let mut blk = Block::new();
                    blk.set_pointer(POINTERS_PER_BLOCK - 1, b);
                    self.meta_data.root_free_list.set_data(blk.data());
                    self.save_meta_data(disk, MetaPart::RootFreeList);
                    i = 0;
                } else {
                    proof {
                        lemma_free_fold_stopped(m0, d0, blocks@, (k + 1) as int, blocks@.len() as int);
                    }
                    break;
                }
            } else {
                self.meta_data.root_free_list.set_pointer(i, b);
                self.meta_data.superblock.free_blocks += 1;
                i += 1;
            }
            k += 1;
        }
        self.save_meta_data(disk, MetaPart::RootFreeList);
        self.save_meta_data(disk, MetaPart::Superblock);
    }

    /// Stores the `part` of the metadata on the disk.
    pub fn save_meta_data(&mut self, disk: &mut Disk, part: MetaPart) -> (r: bool)
        requires
            INODES_FREE_LIST < old(disk)@.len(),
        ensures
            r,
            final(self).meta_data == old(self).meta_data,
            stores_meta(old(disk)@, final(disk)@, old(self).meta_data, part),
            final(disk)@.len() == old(disk)@.len(),
            final(disk).mount_count() == old(disk).mount_count(),
            final(disk).path_view() == old(disk).path_view(),
    {
        save_meta_data(&self.meta_data, disk, part)
    }
}

/// Once the fold stops, later blocks change nothing.
proof fn lemma_free_fold_stopped(m: MetaData, d: Seq<Seq<u8>>, bs: Seq<u32>, k: int, n: int)
    requires
        0 <= k <= n,
        free_fold(m, d, bs, k).stopped,
    ensures
        free_fold(m, d, bs, n) == free_fold(m, d, bs, k),
    decreases n - k,
{
    if n > k {
        lemma_free_fold_stopped(m, d, bs, k, n - 1);
    }
}

/// A block given back to a free list whose head block has room is the next block taken.
pub proof fn law_free_then_allocate(
    m: MetaData,
    d: Seq<Seq<u8>>,
    b: u32,
    m1: MetaData,
    d1: Seq<Seq<u8>>,
    r: i64,
    m2: MetaData,
    d2: Seq<Seq<u8>>,
)
    requires
        m.root_free_list@.len() == BLOCK_SIZE,
        m.superblock.free_blocks < POINTERS_PER_BLOCK - 2,
        forall|k: int| 0 <= k < m.superblock.free_blocks ==> #[trigger] free_list_pointers(m)[k] != 0,
        free_list_pointers(m)[m.superblock.free_blocks as int] == 0,
        b > 0,
        frees(m, d, seq![b], m1, d1),
        allocates(m1, d1, r, m2, d2),
    ensures
        r == b,
{
    let n = m.superblock.free_blocks as int;
    let p = free_list_pointers(m);
    assert forall|k: int| 0 <= k <= n implies first_zero_from(p, k) == n by {
        lemma_first_zero_from(p, k, n);
    }
    let st = free_fold(m, d, seq![b], 1);
    assert(free_fold(m, d, seq![b], 0).slot == n);
    assert(st.head == put_u32(m.root_free_list@, 4 * n, b));
    lemma_put_get(m.root_free_list@, 4 * n, b);
    assert(m1.superblock.free_blocks == n + 1);
    assert(free_slot(m1.superblock.free_blocks) == n);
    assert(free_list_pointers(m1)[n] == b);
}

/// The head block of a free list in order: the slots from the free slot `slot` up to the last
/// entry slot are empty, and the count `free` of recorded blocks puts the next allocation in the
/// slot before it (or, with the head block full or empty, onto the next block of the list).
pub open spec fn head_in_order(head: Seq<u8>, free: int, slot: int) -> bool {
    let p = spec_pointers(head);
    &&& head.len() == BLOCK_SIZE
    &&& 0 <= slot <= POINTERS_PER_BLOCK
    &&& 0 <= free
    &&& (slot == 0 ==> free % (POINTERS_PER_BLOCK - 1) as int == 0)
    &&& (1 <= slot <= POINTERS_PER_BLOCK - 2 ==> (free - 1) % (POINTERS_PER_BLOCK - 1) as int == slot - 1)
    &&& (slot >= POINTERS_PER_BLOCK - 1 ==> free > 0 && (free - 1) % (POINTERS_PER_BLOCK - 1) as int == POINTERS_PER_BLOCK - 2)
    &&& (forall|i: int| slot <= i < POINTERS_PER_BLOCK - 1 ==> #[trigger] p[i] == 0)
}

/// The pool after the first `j` blocks of `bs` are given back from the metadata `m` on `d`.
pub open spec fn fold_pool(m: MetaData, d: Seq<Seq<u8>>, bs: Seq<u32>, j: int) -> Pool {
    let st = free_fold(m, d, bs, j);
    Pool {
        head: st.head,
        free: st.free_blocks,
        next: m.superblock.current_block_index as int,
        end: m.superblock.blocks as int,
    }
}

/// The `j`-th block of `bs` (counting from 0), given back after the ones before it from the
/// metadata `m` on `d`, finds the head block of the free list full: it takes the old head
/// block's contents and becomes the next block of the list.
pub open spec fn starts_head(m: MetaData, d: Seq<Seq<u8>>, bs: Seq<u32>, j: int) -> bool {
    free_fold(m, d, bs, j).slot >= POINTERS_PER_BLOCK - 1
}

/// The blocks `bs` can be given back from the metadata `m` on `d` and be found again: each one
/// that starts a head block is a block of the disk other than the superblock and the head block
/// of the free list, no two of those are the same, and none given into the last entry slot of
/// a head block is block 0 (which would read as an empty slot).
pub open spec fn can_give_back(m: MetaData, d: Seq<Seq<u8>>, bs: Seq<u32>) -> bool {
    &&& forall|j: int| 0 <= j < bs.len() && #[trigger] starts_head(m, d, bs, j)
        ==> 0 < bs[j] < d.len() && bs[j] != ROOT_FREE_LIST
    &&& forall|i: int, j: int| 0 <= i < j < bs.len() && #[trigger] starts_head(m, d, bs, i) && #[trigger] starts_head(m, d, bs, j)
        ==> bs[i] != bs[j]
    &&& forall|j: int| 0 <= j < bs.len() && (#[trigger] free_fold(m, d, bs, j)).slot == POINTERS_PER_BLOCK - 2 ==> bs[j] != 0
}

/// The first empty slot from `k` on is at `k` or after it.
proof fn lemma_first_zero_at_least(p: Seq<u32>, k: int)
    requires
        0 <= k <= POINTERS_PER_BLOCK,
    ensures
        k <= first_zero_from(p, k),
    decreases POINTERS_PER_BLOCK - k,
{
    if k < POINTERS_PER_BLOCK && p[k] != 0 {
        lemma_first_zero_at_least(p, k + 1);
    }
}

/// Giving back the first `n` blocks of `bs` to a head block with room for all of them puts
/// each in the next empty slot, after the pointers already there, and counts each as free.
pub proof fn lemma_fold_fits(m: MetaData, d: Seq<Seq<u8>>, bs: Seq<u32>, n: int)
    requires
        0 <= n <= bs.len(),
        first_zero_from(free_list_pointers(m), 0) + bs.len() <= POINTERS_PER_BLOCK - 1,
        m.root_free_list@.len() == BLOCK_SIZE,
    ensures
        ({
            let s0 = first_zero_from(free_list_pointers(m), 0);
            let st = free_fold(m, d, bs, n);
            &&& 0 <= s0
            &&& !st.stopped
            &&& st.slot == s0 + n
            &&& st.free_blocks == m.superblock.free_blocks + n
            &&& st.head.len() == BLOCK_SIZE
            &&& forall|i: int| 0 <= i < n ==> #[trigger] spec_pointers(st.head)[s0 + i] == bs[i]
            &&& forall|j: int| 0 <= j < s0 ==> #[trigger] spec_pointers(st.head)[j] == free_list_pointers(m)[j]
        }),
    decreases n,
{
    let s0 = first_zero_from(free_list_pointers(m), 0);
    lemma_first_zero_at_least(free_list_pointers(m), 0);
    if n > 0 {
        lemma_fold_fits(m, d, bs, n - 1);
        let a = free_fold(m, d, bs, n - 1);
        let st = free_fold(m, d, bs, n);
        assert(st == free_step(a, bs[n - 1]));
        let off = 4 * a.slot;
        lemma_put_get(a.head, off, bs[n - 1]);
        assert forall|i: int| 0 <= i < n implies #[trigger] spec_pointers(st.head)[s0 + i] == bs[i] by {
            if i < n - 1 {
                lemma_put_get_other(a.head, off, bs[n - 1], 4 * (s0 + i));
                assert(spec_pointers(a.head)[s0 + i] == bs[i]);
            }
        }
        assert forall|j: int| 0 <= j < s0 implies #[trigger] spec_pointers(st.head)[j] == free_list_pointers(m)[j] by {
            lemma_put_get_other(a.head, off, bs[n - 1], 4 * j);
            assert(spec_pointers(a.head)[j] == free_list_pointers(m)[j]);
        }
    }
}

/// Giving back blocks to a head block of the free list that has room for all of them counts
/// each of them as free and records each in the head, after the blocks recorded before, which
/// stay.
pub proof fn law_given_back_blocks_are_recorded(m: MetaData, d: Seq<Seq<u8>>, bs: Seq<u32>, m1: MetaData, d1: Seq<Seq<u8>>)
    requires
        first_zero_from(free_list_pointers(m), 0) + bs.len() <= POINTERS_PER_BLOCK - 1,
        m.root_free_list@.len() == BLOCK_SIZE,
        m.superblock.free_blocks + bs.len() <= u32::MAX,
        frees(m, d, bs, m1, d1),
    ensures
        m1.superblock.free_blocks == m.superblock.free_blocks + bs.len(),
        forall|i: int| 0 <= i < bs.len() ==> #[trigger] free_list_pointers(m1)[first_zero_from(free_list_pointers(m), 0) + i] == bs[i],
        forall|j: int| 0 <= j < first_zero_from(free_list_pointers(m), 0) ==> #[trigger] free_list_pointers(m1)[j] == free_list_pointers(m)[j],
{
    lemma_first_zero_at_least(free_list_pointers(m), 0);
    lemma_fold_fits(m, d, bs, bs.len() as int);
}

/// Blocks given back to a free list in order are handed out again, the last one given back
/// first, also across the blocks that the list takes for new head blocks; after as many
/// allocations the free list is as it was before.
pub proof fn law_free_then_allocate_all(m: MetaData, d: Seq<Seq<u8>>, bs: Seq<u32>, m1: MetaData, d1: Seq<Seq<u8>>)
    requires
        INODES_FREE_LIST < d.len(),
        head_in_order(m.root_free_list@, m.superblock.free_blocks as int, first_zero_from(free_list_pointers(m), 0)),
        m.superblock.free_blocks + bs.len() <= u32::MAX,
        can_give_back(m, d, bs),
        frees(m, d, bs, m1, d1),
    ensures
        forall|k: int| 0 <= k < bs.len() ==> #[trigger] handed_out(m1, d1, k) == bs[bs.len() - 1 - k],
        pool_after(m1, d1, bs.len() as int) == pool_of(m),
{
    let n = bs.len() as int;
    let stn = free_fold(m, d, bs, n);
    lemma_fold_in_order(m, d, bs, n);
    assert forall|j: int| 0 <= j < n && (#[trigger] free_fold(m, d, bs, j)).slot >= POINTERS_PER_BLOCK - 1
        implies d1[bs[j] as int] == free_fold(m, d, bs, j).head by {
        lemma_fold_in_order(m, d, bs, j);
        assert(starts_head(m, d, bs, j));
        assert forall|k: int| j + 1 <= k < n && #[trigger] starts_head(m, d, bs, k) implies bs[k] != bs[j] by {
            assert(bs[j] != bs[k]);
        }
        lemma_fold_keeps(m, d, bs, j + 1, n, bs[j] as int);
        assert(free_fold(m, d, bs, j + 1) == free_step(free_fold(m, d, bs, j), bs[j]));
        assert(free_fold(m, d, bs, j + 1).disk[bs[j] as int] == free_fold(m, d, bs, j).head);
        assert(stn.disk[bs[j] as int] == free_fold(m, d, bs, j + 1).disk[bs[j] as int]);
    }
    assert forall|k: int| 0 <= k <= n implies #[trigger] pool_after(m1, d1, k) == fold_pool(m, d, bs, n - k) by {
        lemma_unfold_pool(m, d, bs, m1, d1, k);
    }
    assert forall|k: int| 0 <= k < n implies #[trigger] handed_out(m1, d1, k) == bs[n - 1 - k] by {
        assert(pool_after(m1, d1, k) == fold_pool(m, d, bs, n - k));
        lemma_fold_in_order(m, d, bs, n - k - 1);
        lemma_one_back(m, d, bs, d1, n - k);
    }
    assert(pool_after(m1, d1, n) == fold_pool(m, d, bs, 0));
}

/// Each block given back keeps the free list in order, and no block stops the fold; the count
/// grows by at most one a block.
proof fn lemma_fold_in_order(m: MetaData, d: Seq<Seq<u8>>, bs: Seq<u32>, j: int)
    requires
        INODES_FREE_LIST < d.len(),
        head_in_order(m.root_free_list@, m.superblock.free_blocks as int, first_zero_from(free_list_pointers(m), 0)),
        can_give_back(m, d, bs),
        0 <= j <= bs.len(),
    ensures
        ({
            let st = free_fold(m, d, bs, j);
            &&& !st.stopped
            &&& head_in_order(st.head, st.free_blocks, st.slot)
            &&& m.superblock.free_blocks <= st.free_blocks <= m.superblock.free_blocks + j
            &&& st.disk.len() == d.len()
        }),
    decreases j,
{
    if j > 0 {
        lemma_fold_in_order(m, d, bs, j - 1);
        let st = free_fold(m, d, bs, j - 1);
        let b = bs[j - 1];
        let st2 = free_fold(m, d, bs, j);
        assert(st2 == free_step(st, b));
        if st.slot >= POINTERS_PER_BLOCK - 1 {
            assert(starts_head(m, d, bs, j - 1));
            let head = put_u32(zero_block(), 4 * (POINTERS_PER_BLOCK - 1), b);
            assert forall|i: int| 0 <= i < POINTERS_PER_BLOCK - 1 implies #[trigger] spec_pointers(head)[i] == 0 by {
                lemma_put_get_other(zero_block(), 4 * (POINTERS_PER_BLOCK - 1), b, 4 * i);
                law_zero_block_views();
                assert(spec_pointers(zero_block())[i] == 0);
            }
        } else {
            let s = st.slot;
            assert forall|i: int| s + 1 <= i < POINTERS_PER_BLOCK - 1 implies #[trigger] spec_pointers(st2.head)[i] == 0 by {
                lemma_put_get_other(st.head, 4 * s, b, 4 * i);
                assert(spec_pointers(st.head)[i] == 0);
            }
        }
    }
}

/// Giving back blocks after the `j`-th leaves every block after the metadata as it was, but the
/// blocks given back that start new head blocks.
proof fn lemma_fold_keeps(m: MetaData, d: Seq<Seq<u8>>, bs: Seq<u32>, j: int, i: int, x: int)
    requires
        INODES_FREE_LIST < d.len(),
        head_in_order(m.root_free_list@, m.superblock.free_blocks as int, first_zero_from(free_list_pointers(m), 0)),
        can_give_back(m, d, bs),
        0 <= j <= i <= bs.len(),
        0 <= x < d.len(),
        x != ROOT_FREE_LIST,
        forall|k: int| j <= k < i && #[trigger] starts_head(m, d, bs, k) ==> bs[k] != x,
    ensures
        free_fold(m, d, bs, i).disk[x] == free_fold(m, d, bs, j).disk[x],
    decreases i - j,
{
    if i > j {
        lemma_fold_keeps(m, d, bs, j, i - 1, x);
        lemma_fold_in_order(m, d, bs, i - 1);
        if starts_head(m, d, bs, i - 1) {
            assert(bs[i - 1] != x);
        }
        assert(free_fold(m, d, bs, i) == free_step(free_fold(m, d, bs, i - 1), bs[i - 1]));
    }
}

/// From the pool after `j` blocks are given back, one allocation on the disk `d1` that holds the
/// old head blocks where they were put hands out the `j`-th block given back and leaves the pool
/// after `j - 1` blocks.
proof fn lemma_one_back(m: MetaData, d: Seq<Seq<u8>>, bs: Seq<u32>, d1: Seq<Seq<u8>>, j: int)
    requires
        1 <= j <= bs.len(),
        d1.len() == d.len(),
        INODES_FREE_LIST < d.len(),
        can_give_back(m, d, bs),
        ({
            let st = free_fold(m, d, bs, j - 1);
            &&& !st.stopped
            &&& head_in_order(st.head, st.free_blocks, st.slot)
            &&& st.slot >= POINTERS_PER_BLOCK - 1 ==> d1[bs[j - 1] as int] == st.head
        }),
    ensures
        pool_out(fold_pool(m, d, bs, j), d1) == bs[j - 1],
        pool_next(fold_pool(m, d, bs, j), d1) == fold_pool(m, d, bs, j - 1),
{
    let st = free_fold(m, d, bs, j - 1);
    let b = bs[j - 1];
    let p1 = fold_pool(m, d, bs, j);
    let s = st.slot;
    let f = st.free_blocks;
    assert(free_fold(m, d, bs, j) == free_step(st, b));
    if s >= POINTERS_PER_BLOCK - 1 {
        assert(starts_head(m, d, bs, j - 1));
        let head = put_u32(zero_block(), 4 * (POINTERS_PER_BLOCK - 1), b);
        assert(p1.head == head);
        lemma_put_get(zero_block(), 4 * (POINTERS_PER_BLOCK - 1), b);
        lemma_put_get_other(zero_block(), 4 * (POINTERS_PER_BLOCK - 1), b, 0);
        lemma_put_get_other(zero_block(), 4 * (POINTERS_PER_BLOCK - 1), b, 4 * (POINTERS_PER_BLOCK - 2));
        law_zero_block_views();
        assert(spec_pointers(zero_block())[0] == 0);
        assert(spec_pointers(zero_block())[POINTERS_PER_BLOCK - 2] == 0);
        assert(spec_pointers(head)[POINTERS_PER_BLOCK - 1] == b);
        assert(spec_pointers(head)[0] == 0);
        assert(spec_pointers(head)[POINTERS_PER_BLOCK - 2] == 0);
        assert(pool_moves_on(p1, d1.len()));
    } else {
        let head = put_u32(st.head, 4 * s, b);
        assert(p1.head == head);
        assert(p1.free == f + 1);
        assert((p1.free - 1) % (POINTERS_PER_BLOCK - 1) as int == s);
        lemma_put_get(st.head, 4 * s, b);
        assert(spec_pointers(head)[s] == b);
        assert(!pool_moves_on(p1, d1.len()));
        assert(spec_pointers(st.head)[s] == 0);
        lemma_put_zero_restores(st.head, 4 * s, b);
    }
}

/// Putting a value into an empty word and then clearing it gives back the bytes as they were.
proof fn lemma_put_zero_restores(h: Seq<u8>, off: int, b: u32)
    requires
        0 <= off,
        off + 4 <= h.len(),
        le_u32(h, off) == 0,
    ensures
        put_u32(put_u32(h, off, b), off, 0) == h,
{
    let x = h[off] as int + h[off + 1] as int * 0x100 + h[off + 2] as int * 0x10000 + h[off + 3] as int * 0x1000000;
    assert(0 <= x < 0x1_0000_0000);
    assert(x == 0);
    assert(byte_of(0, 0) == 0 && byte_of(0, 1) == 0 && byte_of(0, 2) == 0 && byte_of(0, 3) == 0);
    assert(put_u32(put_u32(h, off, b), off, 0) =~= h);
}

/// The allocations from the metadata after the blocks `bs` are given back go back through the
/// pools of the fold, one block given back at a time.
proof fn lemma_unfold_pool(m: MetaData, d: Seq<Seq<u8>>, bs: Seq<u32>, m1: MetaData, d1: Seq<Seq<u8>>, k: int)
    requires
        INODES_FREE_LIST < d.len(),
        head_in_order(m.root_free_list@, m.superblock.free_blocks as int, first_zero_from(free_list_pointers(m), 0)),
        m.superblock.free_blocks + bs.len() <= u32::MAX,
        can_give_back(m, d, bs),
        frees(m, d, bs, m1, d1),
        forall|j: int| 0 <= j < bs.len() && (#[trigger] free_fold(m, d, bs, j)).slot >= POINTERS_PER_BLOCK - 1
            ==> d1[bs[j] as int] == free_fold(m, d, bs, j).head,
        0 <= k <= bs.len(),
    ensures
        pool_after(m1, d1, k) == fold_pool(m, d, bs, bs.len() - k),
    decreases k,
{
    let n = bs.len() as int;
    lemma_fold_in_order(m, d, bs, n);
    assert(d1.len() == d.len());
    if k == 0 {
        assert(pool_of(m1) == fold_pool(m, d, bs, n));
    } else {
        lemma_unfold_pool(m, d, bs, m1, d1, k - 1);
        lemma_fold_in_order(m, d, bs, n - k);
        lemma_one_back(m, d, bs, d1, n - k + 1);
    }
}

/// What allocations draw on: the head block of the free-block list, how many blocks the list
/// records, the next never-used block and the end of the file system.
pub struct Pool {
    pub head: Seq<u8>,
    pub free: int,
    pub next: int,
    pub end: int,
}

/// The pool of the metadata `m`.
pub open spec fn pool_of(m: MetaData) -> Pool {
    Pool {
        head: m.root_free_list@,
        free: m.superblock.free_blocks as int,
        next: m.superblock.current_block_index as int,
        end: m.superblock.blocks as int,
    }
}

/// An allocation from `p` on a disk of `disk_len` blocks takes the block that the last slot of
/// the emptied head block names, and that block becomes the head.
pub open spec fn pool_moves_on(p: Pool, disk_len: nat) -> bool {
    let q = spec_pointers(p.head);
    &&& p.free != 0
    &&& (p.free - 1) % (POINTERS_PER_BLOCK - 1) as int == POINTERS_PER_BLOCK - 2
    &&& q[0] == 0
    &&& q[POINTERS_PER_BLOCK - 2] == 0
    &&& q[POINTERS_PER_BLOCK - 1] > 0
    &&& q[POINTERS_PER_BLOCK - 1] < disk_len
}

/// The block that an allocation from `p` on the disk `d` hands out, or -1 when none is left.
pub open spec fn pool_out(p: Pool, d: Seq<Seq<u8>>) -> int {
    let q = spec_pointers(p.head);
    if p.free == 0 {
        if p.next < p.end { p.next } else { -1 }
    } else if pool_moves_on(p, d.len()) {
        q[POINTERS_PER_BLOCK - 1] as int
    } else {
        q[(p.free - 1) % (POINTERS_PER_BLOCK - 1) as int] as int
    }
}

/// The pool after an allocation from `p` on the disk `d`.
pub open spec fn pool_next(p: Pool, d: Seq<Seq<u8>>) -> Pool {
    let q = spec_pointers(p.head);
    let s = (p.free - 1) % (POINTERS_PER_BLOCK - 1) as int;
    if p.free == 0 {
        if p.next < p.end { Pool { next: p.next + 1, ..p } } else { p }
    } else if pool_moves_on(p, d.len()) {
        Pool { head: d[q[POINTERS_PER_BLOCK - 1] as int], ..p }
    } else {
        Pool { head: put_u32(p.head, 4 * s, 0), free: p.free - 1, ..p }
    }
}

/// The pool after `k` allocations starting from the metadata `m` on the disk `d`.
pub open spec fn pool_after(m: MetaData, d: Seq<Seq<u8>>, k: int) -> Pool
    decreases k,
{
    if k <= 0 {
        pool_of(m)
    } else {
        pool_next(pool_after(m, d, k - 1), d)
    }
}

/// The `k`-th block (counting from 0) that allocations starting from the metadata `m` on the
/// disk `d` hand out, or -1 once none is left.
pub open spec fn handed_out(m: MetaData, d: Seq<Seq<u8>>, k: int) -> int {
    pool_out(pool_after(m, d, k), d)
}

/// The pool `p` has no block left: its free list records none and every block of the file
/// system has been used.
pub open spec fn exhausted(p: Pool) -> bool {
    p.free == 0 && p.next >= p.end
}

/// Allocations starting from `m` on `d` hand out `n` blocks and then none.
pub open spec fn runs_out_at(m: MetaData, d: Seq<Seq<u8>>, n: int) -> bool {
    &&& 0 <= n
    &&& exhausted(pool_after(m, d, n))
    &&& forall|k: int| 0 <= k < n ==> !exhausted(#[trigger] pool_after(m, d, k))
}

/// How many blocks allocations starting from `m` on `d` hand out before none is left.
pub open spec fn blocks_left(m: MetaData, d: Seq<Seq<u8>>) -> int {
    choose|n: int| runs_out_at(m, d, n)
}

/// `m` is the metadata `m0` after `u` allocations on the disk `d0`: its pool is the pool of
/// `m0` after them, and the rest of its superblock is that of `m0`.
pub open spec fn took(m0: MetaData, d0: Seq<Seq<u8>>, m: MetaData, u: int) -> bool {
    &&& 0 <= u <= blocks_left(m0, d0)
    &&& pool_of(m) == pool_after(m0, d0, u)
    &&& m.superblock == (Superblock {
        free_blocks: m.superblock.free_blocks,
        current_block_index: m.superblock.current_block_index,
        ..m0.superblock
    })
}

/// An exhausted pool stays as it is.
proof fn lemma_exhausted_stays(m: MetaData, d: Seq<Seq<u8>>, n: int, k: int)
    requires
        0 <= n <= k,
        exhausted(pool_after(m, d, n)),
    ensures
        pool_after(m, d, k) == pool_after(m, d, n),
    decreases k - n,
{
    if k > n {
        lemma_exhausted_stays(m, d, n, k - 1);
    }
}

/// Allocations run out after one count of blocks only, and that count is `blocks_left`; from
/// then on they hand out -1.
pub proof fn lemma_runs_out(m: MetaData, d: Seq<Seq<u8>>, n: int)
    requires
        runs_out_at(m, d, n),
    ensures
        blocks_left(m, d) == n,
        forall|k: int| n <= k ==> #[trigger] handed_out(m, d, k) == -1,
{
    let c = choose|c: int| runs_out_at(m, d, c);
    assert(runs_out_at(m, d, c));
    if c < n {
        assert(!exhausted(pool_after(m, d, c)));
    }
    if n < c {
        assert(!exhausted(pool_after(m, d, n)));
    }
    assert forall|k: int| n <= k implies #[trigger] handed_out(m, d, k) == -1 by {
        lemma_exhausted_stays(m, d, n, k);
    }
}

/// Metadata with the superblock and free-list head block of `m`, the metadata after `u`
/// allocations from `m0`, is after `u` allocations from `m0` too.
pub proof fn lemma_took_same(m0: MetaData, d0: Seq<Seq<u8>>, m: MetaData, m2: MetaData, u: int)
    requires
        took(m0, d0, m, u),
        m2.superblock == m.superblock,
        m2.root_free_list == m.root_free_list,
    ensures
        took(m0, d0, m2, u),
{
}

/// An allocation after `u` allocations from `m0` hands out the next block of `m0`, or -1, with
/// nothing changed, when `m0` has no block left; only the metadata blocks change on the disk.
/// The disk may have changed since, but not in the block handed out next.
pub proof fn lemma_take_next(
    m0: MetaData,
    d0: Seq<Seq<u8>>,
    m: MetaData,
    u: int,
    d: Seq<Seq<u8>>,
    r: i64,
    m2: MetaData,
    d2: Seq<Seq<u8>>,
)
    requires
        runs_out_at(m0, d0, blocks_left(m0, d0)),
        took(m0, d0, m, u),
        allocates(m, d, r, m2, d2),
        INODES_FREE_LIST < d.len(),
        d.len() == d0.len(),
        u < blocks_left(m0, d0) ==> d[handed_out(m0, d0, u)] == d0[handed_out(m0, d0, u)],
    ensures
        u < blocks_left(m0, d0) ==> r == handed_out(m0, d0, u) && took(m0, d0, m2, u + 1),
        u == blocks_left(m0, d0) ==> r == -1 && m2 == m && d2 == d,
        d2.len() == d.len(),
        forall|k: int| INODES_FREE_LIST < k < d.len() ==> #[trigger] d2[k] == d[k],
{
    let left = blocks_left(m0, d0);
    let p = pool_after(m0, d0, u);
    assert(pool_after(m0, d0, u + 1) == pool_next(p, d0));
    if u < left {
        assert(!exhausted(pool_after(m0, d0, u)));
        let sb = m.superblock;
        assert(free_list_moves_on(m, d.len()) == pool_moves_on(p, d0.len()));
        if sb.free_blocks == 0 {
            assert(pool_of(m2) == pool_next(p, d0));
        } else if pool_moves_on(p, d0.len()) {
            assert(pool_of(m2) == pool_next(p, d0));
        } else {
            assert(free_slot(sb.free_blocks) == (p.free - 1) % (POINTERS_PER_BLOCK - 1) as int);
            assert(pool_of(m2) == pool_next(p, d0));
        }
    }
}

/// Allocations from `m1` on `d1`, the metadata after `u` allocations from `m0` on `d0` and a
/// disk whose blocks still to be handed out are as they were, hand out what those from `m0`
/// hand out after the first `u`, and then run out.
pub proof fn lemma_pool_shift(m0: MetaData, d0: Seq<Seq<u8>>, m1: MetaData, d1: Seq<Seq<u8>>, u: int)
    requires
        runs_out_at(m0, d0, blocks_left(m0, d0)),
        took(m0, d0, m1, u),
        d1.len() == d0.len(),
        forall|k: int| u <= k < blocks_left(m0, d0) ==> d1[#[trigger] handed_out(m0, d0, k)] == d0[handed_out(m0, d0, k)],
    ensures
        forall|k: int| 0 <= k ==> #[trigger] pool_after(m1, d1, k) == pool_after(m0, d0, u + k),
        forall|k: int| 0 <= k ==> #[trigger] handed_out(m1, d1, k) == handed_out(m0, d0, u + k),
        runs_out_at(m1, d1, blocks_left(m0, d0) - u),
        blocks_left(m1, d1) == blocks_left(m0, d0) - u,
{
    let left = blocks_left(m0, d0);
    assert forall|k: int| 0 <= k implies #[trigger] pool_after(m1, d1, k) == pool_after(m0, d0, u + k) by {
        lemma_pool_shift_at(m0, d0, m1, d1, u, k);
    }
    assert forall|k: int| 0 <= k implies #[trigger] handed_out(m1, d1, k) == handed_out(m0, d0, u + k) by {
        assert(pool_after(m1, d1, k) == pool_after(m0, d0, u + k));
    }
    assert forall|k: int| 0 <= k < left - u implies !exhausted(#[trigger] pool_after(m1, d1, k)) by {
        assert(pool_after(m1, d1, k) == pool_after(m0, d0, u + k));
        assert(!exhausted(pool_after(m0, d0, u + k)));
    }
    assert(pool_after(m1, d1, left - u) == pool_after(m0, d0, left));
    lemma_runs_out(m1, d1, left - u);
}

proof fn lemma_pool_shift_at(m0: MetaData, d0: Seq<Seq<u8>>, m1: MetaData, d1: Seq<Seq<u8>>, u: int, k: int)
    requires
        runs_out_at(m0, d0, blocks_left(m0, d0)),
        took(m0, d0, m1, u),
        d1.len() == d0.len(),
        forall|j: int| u <= j < blocks_left(m0, d0) ==> d1[#[trigger] handed_out(m0, d0, j)] == d0[handed_out(m0, d0, j)],
        0 <= k,
    ensures
        pool_after(m1, d1, k) == pool_after(m0, d0, u + k),
    decreases k,
{
    if k > 0 {
        lemma_pool_shift_at(m0, d0, m1, d1, u, k - 1);
        let p = pool_after(m0, d0, u + k - 1);
        assert(pool_after(m0, d0, u + k) == pool_next(p, d0));
        if pool_moves_on(p, d0.len()) {
            let left = blocks_left(m0, d0);
            if u + k - 1 >= left {
                lemma_exhausted_stays(m0, d0, left, u + k - 1);
            }
            assert(handed_out(m0, d0, u + k - 1) == spec_pointers(p.head)[POINTERS_PER_BLOCK - 1]);
        }
    }
}

/// With no block recorded in the free list, allocations hand out the never-used blocks in
/// order and run out at the end of the file system.
pub proof fn law_fresh_pool_in_order(m: MetaData, d: Seq<Seq<u8>>)
    requires
        m.superblock.free_blocks == 0,
        m.superblock.current_block_index <= m.superblock.blocks,
    ensures
        blocks_left(m, d) == m.superblock.blocks - m.superblock.current_block_index,
        forall|k: int| 0 <= k < blocks_left(m, d) ==> #[trigger] handed_out(m, d, k) == m.superblock.current_block_index + k,
{
    let cur = m.superblock.current_block_index as int;
    let n = m.superblock.blocks - cur;
    assert forall|k: int| 0 <= k <= n implies #[trigger] pool_after(m, d, k) == (Pool { next: cur + k, ..pool_of(m) }) by {
        lemma_fresh_pool_at(m, d, k);
    }
    assert forall|k: int| 0 <= k < n implies !exhausted(#[trigger] pool_after(m, d, k)) by {
        assert(pool_after(m, d, k).next == cur + k);
    }
    assert(pool_after(m, d, n).next == cur + n);
    lemma_runs_out(m, d, n);
    assert forall|k: int| 0 <= k < n implies #[trigger] handed_out(m, d, k) == cur + k by {
        assert(pool_after(m, d, k).next == cur + k);
    }
}

/// With no block recorded in the free list, allocations run out after the never-used blocks.
pub proof fn lemma_fresh_runs_out(m: MetaData, d: Seq<Seq<u8>>)
    requires
        m.superblock.free_blocks == 0,
        m.superblock.current_block_index <= m.superblock.blocks,
    ensures
        runs_out_at(m, d, blocks_left(m, d)),
{
    let cur = m.superblock.current_block_index as int;
    let n = m.superblock.blocks - cur;
    assert forall|k: int| 0 <= k <= n implies #[trigger] pool_after(m, d, k) == (Pool { next: cur + k, ..pool_of(m) }) by {
        lemma_fresh_pool_at(m, d, k);
    }
    assert(runs_out_at(m, d, n));
    lemma_runs_out(m, d, n);
}

proof fn lemma_fresh_pool_at(m: MetaData, d: Seq<Seq<u8>>, k: int)
    requires
        m.superblock.free_blocks == 0,
        0 <= k <= m.superblock.blocks - m.superblock.current_block_index,
    ensures
        pool_after(m, d, k) == (Pool { next: m.superblock.current_block_index + k, ..pool_of(m) }),
    decreases k,
{
    if k > 0 {
        lemma_fresh_pool_at(m, d, k - 1);
    }
}

proof fn lemma_first_zero_from(p: Seq<u32>, k: int, n: int)
    requires
        0 <= k <= n < POINTERS_PER_BLOCK,
        forall|j: int| 0 <= j < n ==> #[trigger] p[j] != 0,
        p[n] == 0,
    ensures
        first_zero_from(p, k) == n,
    decreases n - k,
{
    if k < n {
        lemma_first_zero_from(p, k + 1, n);
    }
}

} // verus!
