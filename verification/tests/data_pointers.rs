use tfs::constants::POINTERS_PER_BLOCK;
use tfs::data_ptr::InodeDataPointer;
use tfs::disk::Disk;
use tfs::fs::FileSystem;

#[test]
fn test_inode_data() {
    let mut disk = Disk::from_file("./data/image.250000".to_string(), 250000);
    let _fs = FileSystem::from_disk(&mut disk);
    let mut inode_data = InodeDataPointer::new(4);

    let n = 1024 + 7000;
    let depth = (((n - 5) as f64).log(POINTERS_PER_BLOCK as f64)).floor() as usize;

    for i in 5..n {
        let r = inode_data.add_data_block(i as i64);
        if r < 0 {
            println!("Negative");
        }
    }

    let (root, direct, indirect) = inode_data.debug();
    println!("root: {}, direct: {}, indirect: {}", root, direct, indirect);
    inode_data.save(&mut disk);
    assert_eq!(inode_data.indirect_ptrs.len(), depth);
    assert!(inode_data.indirect_ptrs[0].len() > 0);
    println!("indirect: {}, depth: {}", inode_data.indirect_ptrs[0].len(), depth);

    let inode_data2 = InodeDataPointer::with_depth(depth, &mut disk, 4);
    assert_eq!(inode_data.direct_ptrs.len(), inode_data2.direct_ptrs.len());
    assert_eq!(inode_data.indirect_ptrs.len(), inode_data2.indirect_ptrs.len());
    assert_eq!(inode_data.indirect_ptrs[0].len(), inode_data2.indirect_ptrs[0].len());
    assert_eq!(inode_data.indirect_ptrs[0][1], inode_data2.indirect_ptrs[0][1]);
}

#[test]
fn data_pointers_start_empty() {
    let d = InodeDataPointer::new(9);
    assert_eq!(d.debug(), (9, 0, 0));
    assert_eq!(d.depth(), 0);
    assert_eq!(d.direct_pointers().len(), 0);
}

#[test]
fn add_data_block_rejects_non_positive_blocks() {
    let mut d = InodeDataPointer::new(4);
    assert_eq!(d.add_data_block(0), -1);
    assert_eq!(d.add_data_block(-3), -1);
    assert_eq!(d.debug(), (4, 0, 0));
}

#[test]
fn first_blocks_are_data_blocks() {
    let mut d = InodeDataPointer::new(4);
    for b in 10..20 {
        assert_eq!(d.add_data_block(b), 0);
    }
    assert_eq!(d.direct_pointers().clone(), (10u32..20).collect::<Vec<u32>>());
    assert_eq!(d.indirect_ptrs.len(), 0);
}

#[test]
fn a_full_level_opens_a_pointer_level() {
    let mut d = InodeDataPointer::new(4);
    for b in 0..POINTERS_PER_BLOCK as i64 {
        assert_eq!(d.add_data_block(100 + b), 0);
    }
    assert_eq!(d.depth(), 1);
    // With 1024 data blocks the next block becomes the first pointer block of a new level.
    assert_eq!(d.add_data_block(5000), 1);
    assert_eq!(d.indirect_ptrs.len(), 1);
    assert_eq!(d.indirect_ptrs[0], vec![5000]);
    assert_eq!(d.add_data_block(5001), 1);
    assert_eq!(d.indirect_ptrs[0], vec![5000, 5001]);
    assert_eq!(d.add_data_block(5002), 0);
    assert_eq!(d.direct_ptrs.len(), POINTERS_PER_BLOCK + 1);
}

#[test]
fn save_then_reload_without_pointer_levels() {
    let mut disk = Disk::from_file("small".to_string(), 64);
    let mut d = InodeDataPointer::new(4);
    for b in 10..30 {
        d.add_data_block(b);
    }
    d.save(&mut disk);
    let d2 = InodeDataPointer::with_depth(0, &mut disk, 4);
    assert_eq!(d2.direct_ptrs, d.direct_ptrs);
    assert_eq!(d2.indirect_ptrs.len(), 0);
    assert_eq!(d2.root_ptr, 4);
}

#[test]
fn blocks_gives_the_data_blocks() {
    let mut d = InodeDataPointer::new(4);
    d.add_data_block(7);
    d.add_data_block(8);
    assert_eq!(d.blocks(), vec![7, 8]);
}

#[test]
fn save_then_reload_with_one_pointer_level() {
    // 2048 data blocks fill two pointer blocks exactly; they read back at depth 1.
    let mut disk = Disk::from_file("level".to_string(), 3000);
    let mut d = InodeDataPointer::new(4);
    let mut b: i64 = 10;
    while d.direct_ptrs.len() < 2048 {
        assert!(d.add_data_block(b) >= 0);
        b += 1;
    }
    assert_eq!(d.indirect_ptrs.len(), 1);
    assert_eq!(d.indirect_ptrs[0].len(), 2);
    d.save(&mut disk);
    let d2 = InodeDataPointer::with_depth(1, &mut disk, 4);
    assert_eq!(d2.direct_ptrs, d.direct_ptrs);
    assert_eq!(d2.indirect_ptrs, d.indirect_ptrs);
}

#[test]
fn pointer_blocks_keep_room_for_every_data_block() {
    let mut d = InodeDataPointer::new(4);
    let mut next: i64 = 5;
    while d.direct_ptrs.len() < 3000 {
        d.add_data_block(next);
        next += 1;
        let n = d.direct_ptrs.len();
        if d.indirect_ptrs.is_empty() {
            assert!(n <= 1024);
        } else {
            assert_eq!(d.indirect_ptrs.len(), 1);
            let l = d.indirect_ptrs[0].len();
            assert!(n >= 1024);
            assert!((l - 1) * 1024 <= n && n <= l * 1024);
        }
    }
    assert_eq!(d.indirect_ptrs[0].len(), 3);
}
