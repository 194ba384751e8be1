[package]
name = "diskann"
version = "0.3.0"
edition = "2021"
publish = false

[dependencies]
bincode = "1.3"
bytemuck = "1"
memmap2 = "0.9"
numkong = "*"
object_store = { version = "*", features = ["fs", "aws"] }
pyo3 = { version = "*", features = ["abi3-py39", "extension-module"] }
rand = "0.8"
rayon = "1"
serde = { version = "1", features = ["derive"] }
thiserror = "*"
tokio = { version = "1", features = ["rt-multi-thread"] }
