[package]
name = "dharmadb"
version = "0.1.0"
edition = "2021"
publish = false

[dependencies]
subway = "*"
bincode = "1"
serde = { version = "1", features = ["derive"] }
thiserror = "1"
buffered_offset_reader = "*"
