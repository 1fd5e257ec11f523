[package]
name = "verdis"
version = "0.1.0"
edition = "2021"
publish = false

[dependencies]
crc64fast = "*"
rand = "*"
clap = { version = "*", features = ["derive"] }
tokio = { version = "*", features = ["full"] }
