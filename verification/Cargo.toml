[package]
name = "c2rust-analyze"
version = "0.1.0"
edition = "2021"
publish = false

[dependencies]
bincode = "1"
log = "0.4"
serde = "1"
