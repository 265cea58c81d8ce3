[package]
name = "haucet-tools"
version = "0.1.0"
edition = "2021"
publish = false

[dependencies]
crc32c = "*"
sha2 = "*"
flate2 = "*"
bzip2 = "*"
lz4 = "*"
lzma-rust2 = "*"
anyhow = "*"
serde = { version = "*", features = ["derive"] }
serde_json = "*"
clap = { version = "*", features = ["derive"] }
zip = { version = "*", default-features = false, features = ["deflate"] }
