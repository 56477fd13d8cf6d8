[package]
name = "passcrack"
version = "0.1.0"
edition = "2021"
publish = false

[dependencies]
argh = "0.1"
bincode = "1.3"
indicatif = "0.15"
md5 = "0.7"
memmap = "0.7"
rayon = "1"
serde = { version = "1", features = ["derive"] }
snap = "1"
