[package]
name = "tagstream"
version = "0.1.0"
edition = "2021"
publish = false

[dependencies]
once_cell = "*"
pyo3 = "*"
serde = { version = "*", features = ["derive"] }
tera = "*"
