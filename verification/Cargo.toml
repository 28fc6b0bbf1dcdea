[package]
name = "blkreader"
version = "0.1.0"
edition = "2021"
publish = false

[dependencies]
blkmap = "*"
blkpath = "*"
clap = { version = "*", features = ["derive"] }
libc = "*"
once_cell = "*"
sudo = "*"
