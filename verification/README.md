# tfs

A small block file system on a disk image, with its behaviour stated as Verus
contracts and proved.

The disk is a sequence of 4096-byte blocks. Block 0 holds the superblock,
block 1 the root block of the inode table, blocks 2 and 3 the heads of the
lists of free blocks and free inode numbers. An inode leads to its data
blocks through a block of pointers, with more levels of pointer blocks as the
file grows.

## Layout

- `src/` — the verified library:
  - `constants.rs`, `codec.rs`: sizes and the little-endian coding of words;
  - `disk.rs`: a disk held in memory, block by block;
  - `block.rs`: the views of a block (superblock, inode block, pointers), the
    metadata, and the block manager that hands out and takes back blocks;
  - `inode.rs`, `utility.rs`: inodes, the inode table, access to one inode;
  - `data_ptr.rs`: the tree of pointer blocks of a file, saved and read back;
  - `i_list.rs`: the inode list (adding, removing, walking inodes);
  - `read_iter.rs`, `write_iter.rs`: reading and writing a file byte by byte;
  - `fs.rs`: the file system (format, mount, create, remove, stat, read,
    write, truncate);
  - `directory.rs`: directories as ordered maps from names to inode numbers;
  - `shell.rs`: splitting command lines, and copying a whole file in or out.
- `tests/` — tests of the library.
- `app/` — the command shell, loading and saving disk images in files, the
  FUSE mount, and the on-disk form of directories.

## Checking

Each contract is proved by Verus; among the laws stated and proved are that a
disk read gives back what was written, that data pointers grown block by block
keep room for every data pointer and, saved to the disk, read back the same, that a freed block is the next one
handed out (also when it starts a new head block of the free list), that
blocks given back come out again last first and leave the free list as it
was, that an
empty free list hands out the never-used blocks in order, that formatting
makes a disk mountable, that bytes appended to a file read back when the
blocks the file has and the blocks it gets lie apart from each other and from
the metadata (and a file copied in copies out the same), that a removed
inode number is the next one given out, that a new inode number is one no
inode in use holds, and that directory lookups see what
was added or removed.

What the proofs of appending leave out: a file whose data pointers have more
than one level of pointer blocks, which only a file of more than 1024 * 1024
data blocks needs.
