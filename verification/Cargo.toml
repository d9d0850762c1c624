[package]
name = "spatio"
version = "0.1.0"
edition = "2021"
publish = false

[dependencies]
bytes = "1"
bincode = "1"
geo = { version = "0.28", default-features = false }
geohash = "0.13"
rustc-hash = "2"
s2 = "0.0.12"
serde = { version = "1", features = ["derive"] }
serde_json = "1"
toml = "0.8"
