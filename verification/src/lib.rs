pub mod constants;
pub mod codec;
pub mod block;
pub mod inode;
pub mod disk;
pub mod utility;
pub mod data_ptr;
pub mod i_list;
pub mod fs;
pub mod read_iter;
pub mod write_iter;
pub mod directory;
pub mod shell;
