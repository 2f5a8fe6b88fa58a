[package]
name = "glossa-dsl"
version = "0.1.0"
edition = "2021"
publish = false

[dependencies]
ahash = "=0.8.12"
bincode = { version = "=2.0.1", features = ["serde"] }
compact_str = "=0.10.0"
kstring = "=2.0.0"
serde = { version = "=1.0.229", features = ["derive"] }
thiserror = "=2.0.21"
tinyvec = { version = "=1.13.3", features = ["alloc"] }
toml = "=1.1.8"
