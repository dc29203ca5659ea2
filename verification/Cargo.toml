[package]
name = "raven"
version = "0.1.0"
edition = "2021"
publish = false

[dependencies]
aligned-vec = "0.5"
bytemuck = "1"
crc32fast = "1"
numpy = "0.22"
pyo3 = "0.22"
rand = "0.8"
rand_chacha = "0.3"
rayon = "1"
serde = { version = "1", features = ["derive"] }
serde_json = "1"
thiserror = "1"
toml = "0.8"
tracing = "0.1"
