[package]
name = "fdon_rs"
version = "0.1.0"
edition = "2021"
publish = false

[dependencies]
ahash = "0.8"
atoi = "2"
bumpalo = { version = "3", features = ["collections", "allocator-api2"] }
fast-float = "0.2"
hashbrown = "0.14"
memchr = "2"
serde = { version = "1", features = ["derive"] }
serde_json = "1"
