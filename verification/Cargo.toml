[package]
name = "rsfrontier-core"
version = "0.1.0"
edition = "2021"
publish = false

[dependencies]
byteorder = "1"
crc32fast = "1"
priority-queue = "*"
queues = "*"
clap = { version = "4", features = ["derive"] }
