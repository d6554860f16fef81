[package]
name = "ggca"
version = "0.1.0"
edition = "2021"
publish = false

[dependencies]
bincode = "1.3"
csv = "1"
pyo3 = { version = "*", features = ["extension-module"] }
serde = { version = "1", features = ["derive"] }
serde_derive = "1"
