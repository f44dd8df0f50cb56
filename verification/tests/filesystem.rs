use tfs::block::{Block, BlockManager};
use tfs::constants::{BLOCK_SIZE, INODES_FREE_LIST, INODES_ROOT_BLOCK, MAGIC_NUMBER, ROOT_FREE_LIST};
use tfs::disk::Disk;
use tfs::fs::FileSystem;
use tfs::shell::{copyin_data, copyout_data};
use tfs::write_iter::InodeWriteIter;

fn formatted_fs(blocks: usize) -> (Disk, FileSystem) {
    let mut disk = Disk::from_file("image".to_string(), blocks);
    let fs = FileSystem::from_disk(&mut disk);
    (disk, fs)
}

fn text(s: &str) -> Vec<u8> {
    let mut d = vec![0u8; 4096];
    for (j, b) in s.as_bytes().iter().enumerate() {
        d[j] = *b;
    }
    d
}

#[test]
fn disk_reads_back_what_was_written() {
    let mut disk = Disk::from_file("d".to_string(), 8);
    assert_eq!(disk.size(), 8);
    let mut data = [0u8; BLOCK_SIZE];
    data[0] = 7;
    data[4095] = 9;
    disk.write(3, &data);
    let mut back = [1u8; BLOCK_SIZE];
    disk.read(3, &mut back);
    assert_eq!(back[0], 7);
    assert_eq!(back[4095], 9);
    assert_eq!(back[1], 0);
    let mut other = [1u8; BLOCK_SIZE];
    disk.read(2, &mut other);
    assert!(other.iter().all(|b| *b == 0));
}

#[test]
fn disk_mount_and_unmount() {
    let mut disk = Disk::new();
    assert!(!disk.mounted());
    disk.mount();
    assert!(disk.mounted());
    disk.unmount();
    assert!(!disk.mounted());
}

#[test]
fn format_writes_the_superblock() {
    let mut disk = Disk::from_file("f".to_string(), 20);
    assert!(FileSystem::format(&mut disk));
    let meta = FileSystem::read_meta_data(&mut disk);
    assert_eq!(meta.superblock.magic_number, MAGIC_NUMBER as u32);
    assert_eq!(meta.superblock.blocks, 20);
    assert_eq!(meta.superblock.current_block_index, 4);
    assert_eq!(meta.superblock.inodes, 0);
    let mut b = [1u8; BLOCK_SIZE];
    disk.read(INODES_ROOT_BLOCK, &mut b);
    assert!(b.iter().all(|x| *x == 0));
    disk.read(ROOT_FREE_LIST, &mut b);
    assert!(b.iter().all(|x| *x == 0));
    disk.read(INODES_FREE_LIST, &mut b);
    assert!(b.iter().all(|x| *x == 0));
}

#[test]
fn mount_needs_the_magic_number() {
    let mut disk = Disk::from_file("m".to_string(), 20);
    let mut fs = FileSystem::new();
    assert!(!fs.mount(&mut disk));
    assert!(FileSystem::format(&mut disk));
    assert!(fs.mount(&mut disk));
}

#[test]
fn from_disk_formats_a_blank_disk_and_mounts_it() {
    let (mut disk, mut fs) = formatted_fs(30);
    let (sb, inodes) = FileSystem::debug(&mut disk);
    assert_eq!(sb.magic_number, MAGIC_NUMBER as u32);
    assert_eq!(sb.blocks, 30);
    assert_eq!(inodes.len(), 0);
    assert!(fs.info().is_some());
}

#[test]
fn create_numbers_inodes_from_one() {
    let (_disk, mut fs) = formatted_fs(30);
    assert_eq!(fs.create(), 1);
    assert_eq!(fs.create(), 2);
    assert_eq!(fs.stat(1), 0);
    assert_eq!(fs.stat(2), 0);
    let (sb, inodes) = fs.info().unwrap();
    assert_eq!(sb.inodes, 2);
    assert_eq!(inodes.len(), 2);
}

#[test]
fn unmounted_file_system_refuses_work() {
    let mut fs = FileSystem::new();
    assert_eq!(fs.create(), -1);
    assert!(!fs.remove(1));
    assert_eq!(fs.stat(1), -1);
    let mut buf = vec![0u8; 10];
    assert_eq!(fs.read(1, &mut buf, 10, 0), -1);
    assert_eq!(fs.write(1, &buf, 10, 0), -1);
    assert!(fs.info().is_none());
}

#[test]
fn remove_frees_the_inode() {
    let (_disk, mut fs) = formatted_fs(30);
    let i = fs.create();
    assert_eq!(i, 1);
    assert!(fs.remove(1));
    assert_eq!(fs.stat(1), 0);
    let meta = fs.meta_data.unwrap();
    assert_eq!(meta.superblock.free_inodes, 1);
}

#[test]
fn fs_read_write() {
    let (_disk, mut fs) = formatted_fs(100);
    let inode1 = fs.create();
    let data = text("Hello, World this is great string");
    let mut data_r = vec![0u8; 4096];
    let b1 = fs.write(inode1 as usize, &data, 33, 0);
    let b2 = fs.read(inode1 as usize, &mut data_r, 33, 0);
    assert_eq!(b1, 33);
    assert_eq!(b2, 33);
    assert_eq!(data_r, data);
    assert_eq!(fs.stat(inode1 as usize), 33);
}

#[test]
fn read_is_cut_to_the_end_of_the_file() {
    let (_disk, mut fs) = formatted_fs(100);
    let f = fs.create() as usize;
    let data = text("abcdef");
    assert_eq!(fs.write(f, &data, 6, 0), 6);
    let mut out = vec![0u8; 16];
    assert_eq!(fs.read(f, &mut out, 16, 2), 4);
    assert_eq!(&out[0..4], b"cdef");
    assert_eq!(fs.read(f, &mut out, 16, 6), 0);
    assert_eq!(fs.read(f, &mut out, 16, 7), 0);
}

#[test]
fn write_takes_bytes_from_the_offset() {
    let (_disk, mut fs) = formatted_fs(100);
    let f = fs.create() as usize;
    let data = text("xxhello");
    assert_eq!(fs.write(f, &data, 5, 2), 5);
    let mut out = vec![0u8; 5];
    assert_eq!(fs.read(f, &mut out, 5, 0), 5);
    assert_eq!(&out[..], b"hello");
}

#[test]
fn write_across_blocks() {
    let (_disk, mut fs) = formatted_fs(100);
    let f = fs.create() as usize;
    let data: Vec<u8> = (0..10000u32).map(|i| (i % 251) as u8).collect();
    assert_eq!(fs.write(f, &data, 10000, 0), 10000);
    assert_eq!(fs.stat(f), 10000);
    let back = copyout_data(&mut fs, f);
    assert_eq!(back, data);
}

#[test]
fn copy_in_then_copy_out() {
    let (_disk, mut fs) = formatted_fs(100);
    let f = fs.create() as usize;
    let data: Vec<u8> = (0..5000u32).map(|i| (i % 7) as u8 + 65).collect();
    assert_eq!(copyin_data(&mut fs, f, &data), 5000);
    assert_eq!(copyout_data(&mut fs, f), data);
}

#[test]
fn truncate_shrinks_the_size() {
    let (_disk, mut fs) = formatted_fs(100);
    let f = fs.create() as usize;
    let data = text("abcdefgh");
    assert_eq!(fs.write(f, &data, 8, 0), 8);
    fs.truncate(f, 3);
    assert_eq!(fs.stat(f), 3);
    let mut out = vec![0u8; 8];
    assert_eq!(fs.read(f, &mut out, 8, 0), 3);
    assert_eq!(&out[0..3], b"abc");
}

#[test]
fn truncate_grows_with_zeros() {
    let (_disk, mut fs) = formatted_fs(100);
    let f = fs.create() as usize;
    fs.truncate(f, 100);
    assert_eq!(fs.stat(f), 100);
    let back = copyout_data(&mut fs, f);
    assert_eq!(back, vec![0u8; 100]);
}

#[test]
fn free_then_allocate_gives_the_block_back() {
    let (mut disk, fs) = formatted_fs(30);
    let meta = fs.meta_data.unwrap();
    let mut mgr = BlockManager::new(meta);
    let a = mgr.allocate_free_block(&mut disk);
    assert_eq!(a, 4);
    let b = mgr.allocate_free_block(&mut disk);
    assert_eq!(b, 5);
    mgr.free_blocks(vec![4], &mut disk);
    assert_eq!(mgr.meta_data.superblock.free_blocks, 1);
    assert_eq!(mgr.allocate_free_block(&mut disk), 4);
    assert_eq!(mgr.allocate_free_block(&mut disk), 6);
}

#[test]
fn block_views_round_trip() {
    let mut b = Block::new();
    assert!(b.data().iter().all(|x| *x == 0));
    b.set_pointer(5, 0xdeadbeef);
    assert_eq!(b.pointer(5), 0xdeadbeef);
    assert_eq!(b.pointers()[5], 0xdeadbeef);
    let mut d = b.data();
    d[0] = 1;
    assert_eq!(b.data()[0], 0);
    b.set_data(d);
    assert_eq!(b.data()[0], 1);
    let mut sb = b.superblock();
    sb.inodes = 77;
    b.set_superblock(sb);
    assert_eq!(b.superblock().inodes, 77);
}

#[test]
fn truncate_grows_across_blocks() {
    let (_disk, mut fs) = formatted_fs(100);
    let f = fs.create() as usize;
    // A file of one full block.
    let block: Vec<u8> = (0..4096u32).map(|i| (i % 200) as u8 + 1).collect();
    assert_eq!(fs.write(f, &block, 4096, 0), 4096);
    fs.truncate(f, 4096 + 9000);
    assert_eq!(fs.stat(f), 13096);
    let back = copyout_data(&mut fs, f);
    assert_eq!(back.len(), 13096);
    assert_eq!(&back[0..4096], &block[..]);
    assert!(back[4096..].iter().all(|b| *b == 0));
}

#[test]
fn write_stops_when_the_disk_is_full() {
    // Blocks 0-3 hold the metadata; block 4 becomes the file's pointer block, 5 and 6 its data.
    let (_disk, mut fs) = formatted_fs(7);
    let f = fs.create() as usize;
    let data = vec![7u8; 3 * 4096];
    assert_eq!(fs.write(f, &data, 3 * 4096, 0), 2 * 4096);
    assert_eq!(fs.stat(f), 2 * 4096);
    let meta = fs.meta_data.unwrap();
    assert_eq!(meta.superblock.current_block_index, meta.superblock.blocks);
    let back = copyout_data(&mut fs, f);
    assert_eq!(back, vec![7u8; 2 * 4096]);
}

#[test]
fn write_without_room_for_a_pointer_block_fails() {
    let (_disk, mut fs) = formatted_fs(4);
    let f = fs.create();
    assert_eq!(f, 1);
    let data = vec![1u8; 10];
    assert_eq!(fs.write(1, &data, 10, 0), -1);
}

#[test]
fn appending_to_a_file_of_whole_blocks() {
    let (_disk, mut fs) = formatted_fs(100);
    let f = fs.create() as usize;
    let first = vec![3u8; 4096];
    assert_eq!(fs.write(f, &first, 4096, 0), 4096);
    let second = text("tail");
    assert_eq!(fs.write(f, &second, 4, 0), 4);
    assert_eq!(fs.stat(f), 4100);
    let mut out = vec![0u8; 8];
    assert_eq!(fs.read(f, &mut out, 8, 4094), 6);
    assert_eq!(&out[0..6], &[3u8, 3, b't', b'a', b'i', b'l']);
}

#[test]
fn removed_inode_number_is_reused() {
    let (_disk, mut fs) = formatted_fs(30);
    assert_eq!(fs.create(), 1);
    assert_eq!(fs.create(), 2);
    assert_eq!(fs.create(), 3);
    assert!(fs.remove(2));
    assert_eq!(fs.create(), 2);
    assert_eq!(fs.create(), 4);
}

#[test]
fn write_takes_blocks_from_the_free_list_first() {
    let (_disk, mut fs) = formatted_fs(10);
    let f = fs.create() as usize;
    let old = vec![5u8; 2 * 4096];
    assert_eq!(fs.write(f, &old, 2 * 4096, 0), 2 * 4096);
    assert!(fs.remove(f));
    let before = fs.meta_data.unwrap().superblock;
    assert_eq!(before.current_block_index, 7);
    assert_eq!(before.free_blocks, 3);
    let g = fs.create() as usize;
    let mut new = vec![8u8; 2 * 4096];
    new[4096] = 9;
    assert_eq!(fs.write(g, &new, 2 * 4096, 0), 2 * 4096);
    let after = fs.meta_data.unwrap().superblock;
    assert_eq!(after.current_block_index, 7);
    assert_eq!(after.free_blocks, 0);
    assert_eq!(copyout_data(&mut fs, g), new);
}

#[test]
fn one_write_past_1024_blocks_reads_back() {
    // 1030 data blocks need a level of pointer blocks: two of them, 1024 pointers in the first.
    let (_disk, mut fs) = formatted_fs(1100);
    let f = fs.create() as usize;
    let mut data = vec![0u8; 1030 * 4096];
    for (k, b) in data.iter_mut().enumerate() {
        *b = (k % 251) as u8;
    }
    assert_eq!(fs.write(f, &data, data.len(), 0), (1030 * 4096) as i64);
    assert_eq!(fs.stat(f), (1030 * 4096) as i64);
    let meta = fs.meta_data.unwrap();
    // Block 4 is the root pointer block; 1030 data blocks and 2 pointer blocks follow it.
    assert_eq!(meta.superblock.current_block_index, 4 + 1 + 1030 + 2);
    let mut out = vec![0u8; 10];
    assert_eq!(fs.read(f, &mut out, 10, 1029 * 4096 + 5), 10);
    assert_eq!(&out[..], &data[1029 * 4096 + 5..1029 * 4096 + 15]);
    let more = vec![7u8; 4096];
    assert_eq!(fs.write(f, &more, 4096, 0), 4096);
    assert_eq!(fs.stat(f), (1031 * 4096) as i64);
    let back = copyout_data(&mut fs, f);
    assert_eq!(back.len(), 1031 * 4096);
    assert_eq!(&back[..1030 * 4096], &data[..]);
    assert_eq!(&back[1030 * 4096..], &more[..]);
}

#[test]
fn write_after_shrinking_reuses_the_spare_blocks() {
    let (_disk, mut fs) = formatted_fs(40);
    let f = fs.create() as usize;
    let old = vec![1u8; 3 * 4096];
    assert_eq!(fs.write(f, &old, 3 * 4096, 0), 3 * 4096);
    fs.truncate(f, 4096);
    assert_eq!(fs.stat(f), 4096);
    let taken = fs.meta_data.unwrap().superblock.current_block_index;
    let mut new = vec![2u8; 3 * 4096];
    new[2 * 4096] = 3;
    assert_eq!(fs.write(f, &new, 3 * 4096, 0), 3 * 4096);
    assert_eq!(fs.stat(f), 4 * 4096);
    // Two of the three blocks written are the ones the file kept past its size.
    assert_eq!(fs.meta_data.unwrap().superblock.current_block_index, taken + 1);
    let back = copyout_data(&mut fs, f);
    assert_eq!(&back[..4096], &old[..4096]);
    assert_eq!(&back[4096..], &new[..]);
}

#[test]
fn create_fails_when_no_block_is_left_for_a_new_inode_block() {
    // The first inode block holds inode numbers 1 to 127; the 128th needs a new block, and a
    // disk of 4 blocks has none past the metadata.
    let (_disk, mut fs) = formatted_fs(4);
    for k in 1..128 {
        assert_eq!(fs.create(), k as i64);
    }
    assert_eq!(fs.create(), -1);
    assert_eq!(fs.meta_data.unwrap().superblock.inodes, 127);
}

#[test]
fn write_after_freeing_more_than_a_head_block_reads_back() {
    // Removing a file of 1100 data blocks gives back more blocks than the head block of the
    // free list holds, so the list goes on in a second block; a new file then takes them all.
    let (_disk, mut fs) = formatted_fs(1200);
    let f = fs.create() as usize;
    let first = vec![5u8; 1100 * 4096];
    assert_eq!(fs.write(f, &first, first.len(), 0), (1100 * 4096) as i64);
    assert!(fs.remove(f));
    let before = fs.meta_data.unwrap().superblock;
    assert!(before.free_blocks > 1023);
    let g = fs.create() as usize;
    let mut data = vec![0u8; 1100 * 4096];
    for (k, b) in data.iter_mut().enumerate() {
        *b = (k % 253) as u8;
    }
    assert_eq!(fs.write(g, &data, data.len(), 0), (1100 * 4096) as i64);
    let after = fs.meta_data.unwrap().superblock;
    assert!(after.current_block_index <= before.current_block_index + 1);
    let back = copyout_data(&mut fs, g);
    assert_eq!(back.len(), 1100 * 4096);
    assert_eq!(&back[..], &data[..]);
}

#[test]
fn appending_in_the_middle_of_a_block() {
    // The new bytes land right after the old ones, and the size grows by them alone.
    let (_disk, mut fs) = formatted_fs(100);
    let f = fs.create() as usize;
    let first = text("0123456789");
    assert_eq!(fs.write(f, &first, 10, 0), 10);
    let second = text("hello");
    assert_eq!(fs.write(f, &second, 5, 0), 5);
    assert_eq!(fs.stat(f), 15);
    let mut out = vec![0u8; 15];
    assert_eq!(fs.read(f, &mut out, 15, 0), 15);
    assert_eq!(&out[..15], &text("0123456789hello")[..15]);
}

#[test]
fn align_to_block_fills_the_rest_of_the_last_block() {
    let (_disk, mut fs) = formatted_fs(40);
    let f = fs.create() as usize;
    let first = text("0123456789");
    assert_eq!(fs.write(f, &first, 10, 0), 10);
    let mut meta = fs.meta_data.unwrap();
    let mut table = fs.inode_table.take().unwrap();
    let mut disk = fs.disk.take().unwrap();
    let mut it = InodeWriteIter::new(f, &mut disk, &table);
    let fill = vec![9u8; 5000];
    // The file's one data block has room for 4086 more bytes; they are written and counted.
    assert_eq!(it.align_to_block(&mut meta, &mut table, &mut disk, &fill), (true, 4086));
    assert_eq!(it.next_write_index, 0);
    fs.meta_data = Some(meta);
    fs.inode_table = Some(table);
    fs.disk = Some(disk);
    assert_eq!(fs.stat(f), 4096);
    let mut out = vec![0u8; 12];
    assert_eq!(fs.read(f, &mut out, 12, 4), 12);
    assert_eq!(&out[..], &[b'4', b'5', b'6', b'7', b'8', b'9', 9, 9, 9, 9, 9, 9]);
}

#[test]
fn block_freed_onto_a_full_head_block_is_taken_next() {
    let (mut disk, fs) = formatted_fs(1100);
    let meta = fs.meta_data.unwrap();
    let mut mgr = BlockManager::new(meta);
    let mut taken = Vec::new();
    for _ in 0..1024 {
        taken.push(mgr.allocate_free_block(&mut disk) as u32);
    }
    // 1023 blocks fill the head block of the free list.
    mgr.free_blocks(taken[..1023].to_vec(), &mut disk);
    assert_eq!(mgr.meta_data.superblock.free_blocks, 1023);
    // The next one becomes the head of the list and is handed out first.
    let last = taken[1023];
    mgr.free_blocks(vec![last], &mut disk);
    assert_eq!(mgr.meta_data.superblock.free_blocks, 1023);
    assert_eq!(mgr.allocate_free_block(&mut disk), last as i64);
    // Then the blocks of the old head block, the last given back first.
    assert_eq!(mgr.allocate_free_block(&mut disk), taken[1022] as i64);
}

#[test]
fn blocks_given_back_come_out_last_first() {
    let (mut disk, fs) = formatted_fs(1100);
    let mut mgr = BlockManager::new(fs.meta_data.unwrap());
    let mut taken = Vec::new();
    for _ in 0..1030 {
        taken.push(mgr.allocate_free_block(&mut disk) as u32);
    }
    let before = mgr.meta_data.superblock;
    // More than the head block of the free list holds: the list goes on in a second block.
    mgr.free_blocks(taken.clone(), &mut disk);
    for k in 0..1030 {
        assert_eq!(mgr.allocate_free_block(&mut disk), taken[1029 - k] as i64);
    }
    assert_eq!(mgr.meta_data.superblock.free_blocks, before.free_blocks);
    assert_eq!(mgr.meta_data.superblock.current_block_index, before.current_block_index);
}

#[test]
fn create_goes_on_past_the_first_inode_block() {
    // Numbers start from 1, and 127 of them fit in each inode block.
    let (_disk, mut fs) = formatted_fs(100);
    for k in 1..=400i64 {
        assert_eq!(fs.create(), k);
    }
    assert_eq!(fs.inode_table.as_ref().unwrap().len(), 4);
    assert_eq!(fs.stat(127), 0);
    assert_eq!(fs.stat(400), 0);
    let data = text("past the first block");
    assert_eq!(fs.write(300, &data, 20, 0), 20);
    let mut out = vec![0u8; 20];
    assert_eq!(fs.read(300, &mut out, 20, 0), 20);
    assert_eq!(&out[..], &data[..20]);
}

#[test]
fn file_of_a_full_root_block_reads_back() {
    // 1024 data blocks fill the root block with no pointer level; the inode records level 1
    // (direct pointers), so the file reads back, and grows past it.
    let (_disk, mut fs) = formatted_fs(1100);
    let f = fs.create() as usize;
    let mut data = vec![0u8; 1024 * 4096];
    for (k, b) in data.iter_mut().enumerate() {
        *b = (k % 241) as u8;
    }
    assert_eq!(fs.write(f, &data, data.len(), 0), (1024 * 4096) as i64);
    let back = copyout_data(&mut fs, f);
    assert_eq!(back.len(), 1024 * 4096);
    assert_eq!(&back[..], &data[..]);
    let more = vec![8u8; 4096];
    assert_eq!(fs.write(f, &more, 4096, 0), 4096);
    let back = copyout_data(&mut fs, f);
    assert_eq!(back.len(), 1025 * 4096);
    assert_eq!(&back[1024 * 4096..], &more[..]);
}

#[test]
fn truncate_grows_from_the_middle_of_a_block() {
    let (_disk, mut fs) = formatted_fs(100);
    let f = fs.create() as usize;
    let data = text("Hello, World this is great string");
    assert_eq!(fs.write(f, &data, 33, 0), 33);
    fs.truncate(f, 33 + 5000);
    assert_eq!(fs.stat(f), 5033);
    let back = copyout_data(&mut fs, f);
    assert_eq!(back.len(), 5033);
    assert_eq!(&back[0..33], &data[0..33]);
    assert!(back[33..].iter().all(|b| *b == 0));
}

#[test]
fn copy_in_after_a_partial_block_reads_back() {
    let (_disk, mut fs) = formatted_fs(100);
    let f = fs.create() as usize;
    let head = text("abc");
    assert_eq!(fs.write(f, &head, 3, 0), 3);
    let data: Vec<u8> = (0..9000u32).map(|i| (i % 251) as u8).collect();
    assert_eq!(copyin_data(&mut fs, f, &data), 9000);
    assert_eq!(fs.stat(f), 9003);
    let back = copyout_data(&mut fs, f);
    assert_eq!(&back[0..3], b"abc");
    assert_eq!(&back[3..], &data[..]);
}

#[test]
fn removing_onto_a_full_free_inode_head_takes_a_new_head_block() {
    let (_disk, mut fs) = formatted_fs(100);
    for k in 1..=1030i64 {
        assert_eq!(fs.create(), k);
    }
    let free_before = fs.meta_data.unwrap().superblock.free_blocks;
    let next_before = fs.meta_data.unwrap().superblock.current_block_index;
    // The head holds 1023 free inode numbers; the 1024th removal moves it to a new block.
    for k in 1..=1024usize {
        assert!(fs.remove(k));
    }
    let meta = fs.meta_data.unwrap();
    assert_eq!(meta.superblock.free_inodes, 1024);
    assert_eq!(meta.superblock.inodes, 1030);
    let head_block = meta.inodes_free_list.pointer(1023);
    assert!(head_block > 3);
    assert_eq!(meta.inodes_free_list.pointer(0), 1024);
    assert_eq!(meta.inodes_free_list.pointer(1), 0);
    assert_eq!(meta.superblock.free_blocks, free_before);
    assert_eq!(meta.superblock.current_block_index, next_before + 1);
    // The most recently freed number is given out first.
    assert_eq!(fs.create(), 1024);
}

#[test]
fn create_remove_inode() {
    // Block 1 and blocks 4 to 119 hold the inode table: 117 blocks of 127 inodes.
    let number_of_blocks: usize = 120;
    let k: usize = 127;
    let blks: usize = number_of_blocks - 3;
    let (_disk, mut fs) = formatted_fs(number_of_blocks);
    for i in 0..k * blks {
        assert_eq!(fs.create(), (i + 1) as i64);
    }
    assert_eq!(fs.meta_data.unwrap().superblock.inodes as u32, (k * blks) as u32);
    assert_eq!(fs.create(), -1);
}

#[test]
fn copy_in_of_five_mib_goes_past_the_full_root_block() {
    let (_disk, mut fs) = formatted_fs(1400);
    let f = fs.create() as usize;
    let data: Vec<u8> = (0..5 * 1024 * 1024u32).map(|i| (i % 239) as u8).collect();
    assert_eq!(copyin_data(&mut fs, f, &data), data.len());
    assert_eq!(fs.stat(f), data.len() as i64);
    let back = copyout_data(&mut fs, f);
    assert_eq!(back.len(), data.len());
    assert_eq!(&back[..], &data[..]);
}

#[test]
fn truncate_grows_a_file_of_a_full_root_block() {
    let (_disk, mut fs) = formatted_fs(1400);
    let f = fs.create() as usize;
    let data = vec![3u8; 1024 * 4096];
    assert_eq!(fs.write(f, &data, data.len(), 0), (1024 * 4096) as i64);
    fs.truncate(f, 1024 * 4096 + 10000);
    assert_eq!(fs.stat(f), 1024 * 4096 + 10000);
    let back = copyout_data(&mut fs, f);
    assert_eq!(back.len(), 1024 * 4096 + 10000);
    assert!(back[..1024 * 4096].iter().all(|b| *b == 3));
    assert!(back[1024 * 4096..].iter().all(|b| *b == 0));
}
