[package]
name = "orthotope"
version = "0.3.1"
edition = "2021"
publish = false

[dependencies]
memmap2 = "0.9"
parking_lot = "0.12"
libc = "0.2"
thiserror = "2"
mimalloc = "0.1"
jemallocator = "0.5"
