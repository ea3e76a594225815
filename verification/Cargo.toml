[package]
name = "blockchain_demo"
version = "0.1.0"
edition = "2021"
publish = false

[dependencies]
rust-crypto = "0.2.36"
sled = "0.34"
clap = "4"
log = "0.4"
failure = "0.1"

[dev-dependencies]
bincode = "1.3"
serde = "1"
