use tfs::directory::Directory;
use tfs::inode::Inode;
use tfs::block::InodeBlock;
use tfs::shell::{is_white_space, parse_command};
use tfs::utility::{as_u32, as_u32_be, as_u32_le};

#[test]
fn parse_command_splits_on_white_space() {
    assert_eq!(parse_command("  copyin 1   file.txt "), vec!["copyin", "1", "file.txt"]);
    assert_eq!(parse_command("format"), vec!["format"]);
    assert_eq!(parse_command("stat\t3\n"), vec!["stat", "3"]);
    assert_eq!(parse_command("a\u{3000}b"), vec!["a", "b"]);
}

#[test]
fn parse_command_of_blank_line_is_empty() {
    assert!(parse_command("").is_empty());
    assert!(parse_command(" \t  \r\n").is_empty());
}

#[test]
fn parse_command_agrees_with_split_whitespace() {
    let lines = ["x", " y z ", "\u{a0}p\u{2028}q\u{85}", "truncate 5 100", "é ü"];
    for l in lines.iter() {
        let want: Vec<&str> = l.split_whitespace().collect();
        assert_eq!(parse_command(l), want);
    }
}

#[test]
fn white_space_is_the_unicode_property() {
    for n in 0u32..0x3100 {
        if let Some(c) = char::from_u32(n) {
            assert_eq!(is_white_space(c), c.is_whitespace(), "char {:x}", n);
        }
    }
}

#[test]
fn bytes_as_u32() {
    let b = [1u8, 2, 3, 4];
    assert_eq!(as_u32_be(&b), 0x01020304);
    assert_eq!(as_u32_le(&b), 0x04030201);
    assert_eq!(as_u32(&[0xffu8, 0, 0, 1, 9]), 0xff000001);
}

#[test]
fn blank_inode() {
    let i = Inode::blank();
    assert_eq!(i.valid, 1);
    assert_eq!(i.size, 0);
    assert_eq!(i.data_block, 0);
    assert_eq!(i.total_data_blocks, 0);
    assert_eq!(i.pointer_level(), 1);
}

#[test]
fn increase_level_steps_from_one_to_three() {
    let mut i = Inode::blank();
    assert!(!i.increase_level());
    assert_eq!(i.level_index, 0);
    i.level_index = 1;
    assert!(i.increase_level());
    assert_eq!(i.level_index, 2);
    assert!(i.increase_level());
    assert_eq!(i.level_index, 3);
    assert!(!i.increase_level());
    assert_eq!(i.level_index, 3);
}

#[test]
fn inode_block_from_inode() {
    let mut i = Inode::blank();
    i.size = 12;
    let b = InodeBlock::from_inode(i);
    assert_eq!(b.inodes[0].size, 12);
    assert_eq!(b.inodes[1].valid, 0);
    let e = InodeBlock::new();
    assert_eq!(e.next_block, 0);
    assert_eq!(e.inodes[5].valid, 0);
    let blk = b.as_block();
    assert_eq!(blk.inode_block().inodes[0].size, 12);
}

#[test]
fn directory_new_has_dot_entries() {
    let d = Directory::new(5, 2);
    assert_eq!(d.entry(b"."), Ok(5));
    assert_eq!(d.entry(b".."), Ok(2));
    assert_eq!(d.find_by_path(b"x"), Err(false));
    assert_eq!(d.entries.len(), 2);
}

#[test]
fn directory_add_then_find() {
    let mut d = Directory::new(1, 1);
    d.add_entry(b"notes", 7);
    d.add_entry(b"a", 3);
    assert_eq!(d.find_by_path(b"notes"), Ok(7));
    assert_eq!(d.find_by_path(b"a"), Ok(3));
    d.add_entry(b"notes", 9);
    assert_eq!(d.find_by_path(b"notes"), Ok(9));
    assert_eq!(d.entries.len(), 4);
    let names: Vec<&[u8]> = d.entries.iter().map(|e| e.0.as_slice()).collect();
    assert_eq!(names, vec![&b"."[..], &b".."[..], &b"a"[..], &b"notes"[..]]);
}

#[test]
fn directory_remove_then_find() {
    let mut d = Directory::new(1, 1);
    d.add_entry(b"f", 4);
    d.remove_entry(b"f");
    assert_eq!(d.entry(b"f"), Err(false));
    d.remove_entry(b"missing");
    assert_eq!(d.entries.len(), 2);
    assert_eq!(d.entry(b".."), Ok(1));
}
