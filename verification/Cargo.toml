[package]
name = "fdb"
version = "0.1.0"
edition = "2021"
publish = false

[dependencies]
byteorder = "1"
crc = "1.8.1"
serde = { version = "1", features = ["derive"] }
