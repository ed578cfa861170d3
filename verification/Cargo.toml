[package]
name = "sdf"
version = "0.1.0"
edition = "2021"
publish = false

[dependencies]
ndarray = "0.15"
serde = { version = "1", features = ["derive"] }
serde_json = "1"
thiserror = "1"
pyo3 = { version = "0.20", features = ["extension-module"] }
