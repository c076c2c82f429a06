[package]
name = "hidefix"
version = "0.1.0"
edition = "2021"
publish = false

[dependencies]
anyhow = "1"
aws-region = "*"
byte-slice-cast = "1"
flate2 = "1"
flexbuffers = "*"
hdf5-metno = "*"
hdf5-metno-sys = "*"
log = "0.4"
ndarray = { version = "*", features = ["rayon"] }
netcdf = "*"
numpy = "*"
pyo3 = "*"
rayon = "1"
rust-s3 = { version = "*", default-features = false, features = ["sync"] }
serde = { version = "1", features = ["derive"] }
serde_bytes = "0.11"
tokio = { version = "1", features = ["rt-multi-thread"] }
