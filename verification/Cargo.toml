[package]
name = "varant"
version = "0.1.0"
edition = "2021"
publish = false

[dependencies]
aho-corasick = "1"
serde = { version = "1", features = ["derive"] }
serde_json = "1"
once_cell = "1"
parking_lot = "0.12"
log = "0.4"
