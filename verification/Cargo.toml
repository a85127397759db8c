[package]
name = "parcode"
version = "0.6.0"
edition = "2021"
publish = false

[dependencies]
bincode = { version = "2", features = ["serde"] }
lz4_flex = "0.11"
twox-hash = "2"
serde = { version = "1", features = ["derive"] }
memmap2 = "0.9"
rayon = "1"
