[package]
name = "botw_editor"
version = "0.1.0"
edition = "2021"
publish = false

[dependencies]
crc = "*"
serde_json = "*"
clap = { version = "*", features = ["derive"] }
wildmatch = "*"
