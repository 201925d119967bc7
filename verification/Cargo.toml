[package]
name = "sprite_shrink"
version = "0.1.0"
edition = "2021"
publish = false

[dependencies]
bitcode = { version = "=0.6.9", features = ["derive"] }
bytemuck = "=1.25.2"
dashmap = "=6.2.1"
fastcdc = "=3.2.1"
flume = "=0.11.1"
regex = "=1.13.1"
sha2 = "=0.11.1"
thiserror = "=2.0.21"
xxhash-rust = { version = "=0.8.19", features = ["xxh3"] }
zstd = "=0.13.4"
zstd-sys = { version = "=2.1.2", features = ["experimental", "zdict_builder"] }
