[package]
name = "searchfs"
version = "0.1.0"
edition = "2021"
publish = false

[dependencies]
bincode = "1.3"
serde = { version = "1", features = ["derive"] }
clap = { version = "4", features = ["derive"] }
memmap2 = "0.9"
rayon = "1"

[dev-dependencies]
tempfile = "3"
