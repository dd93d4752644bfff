[package]
name = "shunyadb"
version = "0.1.0"
edition = "2021"
publish = false

[dependencies]
anyhow = "1"
clap = { version = "4", features = ["derive"] }
crc32fast = "1"
once_cell = "1"
ordered-float = "*"
serde = { version = "1", features = ["derive"] }
serde_json = "1"

[dev-dependencies]
bincode = "1.3"
