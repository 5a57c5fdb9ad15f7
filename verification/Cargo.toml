[package]
name = "normfs"
version = "0.3.0"
edition = "2021"
publish = false

[dependencies]
bytes = "1"
libc = "0.2"
log = "0.4"
tokio = { version = "1", features = ["fs", "io-util", "rt", "rt-multi-thread", "sync", "time"] }
xxhash-rust = { version = "0.8", features = ["xxh64"] }
zeroize = "1"
