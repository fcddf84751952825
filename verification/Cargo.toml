[package]
name = "reftable"
version = "0.1.0"
edition = "2021"
publish = false

[dependencies]
gix-features = { version = "=0.50.0", features = ["crc32"] }
gix-hash = { version = "=0.28.1", features = ["sha1", "sha256"] }
gix-utils = "=0.5.2"
gix-validate = "*"
nucleo-matcher = "=0.3.1"
memmap2 = "=0.9.12"
thiserror = "=2.0.21"
anyhow = "=1.0.104"
bytes = "=1.12.1"
