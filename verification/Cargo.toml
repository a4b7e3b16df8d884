[package]
name = "psykan"
version = "0.1.0"
edition = "2021"
publish = false

[dependencies]
pyo3 = "*"
pyo3-ffi = "*"
rayon = "*"
sea-orm = { version = "*", default-features = false, features = ["macros", "with-uuid"] }
