[package]
name = "tfs"
version = "0.1.0"
edition = "2021"
publish = false

[dependencies]
serde = { version = "1", features = ["derive"] }
bincode = "1"
libc = "0.2"
time = "0.1"
fuse = "0.3"
