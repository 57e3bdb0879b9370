[package]
name = "blake3"
version = "0.1.0"
edition = "2021"
publish = false

[dependencies]
arrayvec = "0.7"
constant_time_eq = "0.3"
rayon = "1"
clap = { version = "4", features = ["derive"] }
anyhow = "1"
memmap2 = "0.9"
wild = "2"
serde = { version = "1", features = ["derive"] }
serde_json = "1"
hex = "0.4"
