[package]
name = "rusty_rapidgzip"
version = "0.1.0"
edition = "2021"
publish = false

[dependencies]
anyhow = "1"
clap = { version = "4", features = ["derive"] }
crc32fast = "1"
crossbeam-channel = "0.5"
hex = "0.4"
libz-rs-sys = "*"
memmap2 = "0.9"
sha2 = "0.10"
thiserror = "2"
zune-inflate = "0.2"

[dev-dependencies]
miniz_oxide = "0.8"
