[package]
name = "mbf_agent"
version = "0.1.0"
edition = "2021"
publish = false

[dependencies]
qbsdiff = "*"
crc = "*"
serde = { version = "*", features = ["derive"] }
serde_json = "*"
anyhow = "*"
log = "*"
