[package]
name = "swarm_core"
version = "0.1.0"
edition = "2021"
publish = false

[dependencies]
bendy = "*"
crc32c = "*"
rand = "0.8"
sha1 = "0.10"
tokio = { version = "1", features = ["full"] }
