[package]
name = "bintree"
version = "0.1.0"
edition = "2021"
publish = false

[dependencies]
sha2 = "0.10"
rayon = "1"
rocksdb = "*"
serde = { version = "1", features = ["derive"] }
hex = "0.4"
rand = "0.8"
rustler = "*"
