[package]
name = "bitstream_info"
version = "0.1.0"
edition = "2021"
publish = false

[dependencies]
anyhow = "1"
clap = { version = "4", features = ["derive"] }
md5 = "0.7"

[dev-dependencies]
nom = "7"
