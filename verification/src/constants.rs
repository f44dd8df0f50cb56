use vstd::prelude::*;

verus! {

/// Number of bytes in one disk block.
pub const BLOCK_SIZE: usize = 4096;

/// Value stored in the first word of the superblock of a formatted disk.
pub const MAGIC_NUMBER: usize = 0xf0f03410;

pub const POINTERS_PER_INODE: usize = 5;

/// Number of bytes that one inode takes on disk.
pub const INODE_SIZE: usize = 32;

/// Number of inode-sized slots in one block; the last slot holds the links of an inode block.
pub const INODES_PER_BLOCK: usize = BLOCK_SIZE / INODE_SIZE;

/// Number of inodes that one inode block holds.
pub const INODES_IN_BLOCK: usize = 127;

/// Number of 32-bit block pointers that fit in one block.
pub const POINTERS_PER_BLOCK: usize = 1024;

/// Block that holds the newest block of the inode table.
pub const INODES_ROOT_BLOCK: usize = 1;

/// Block that holds the head of the list of free data blocks.
pub const ROOT_FREE_LIST: usize = 2;

/// Block that holds the head of the list of free inode numbers.
pub const INODES_FREE_LIST: usize = 3;

/// Size of the buffers that whole-file copies move at a time.
pub const BUFFER_SIZE: usize = 4096;

} // verus!
