[package]
name = "rasters"
version = "0.1.0"
edition = "2021"
publish = false

[dependencies]
anyhow = "=1.0.104"
clap = "=2.34.0"
gdal = "=0.19.0"
geo = "=0.33.1"
memmap = "0.7"
nalgebra = "=0.35.0"
ndarray = { version = "=0.17.2", features = ["serde"] }
rayon = "=1.12.0"
serde = { version = "=1.0.229", features = ["derive"] }
serde_cbor = "0.11"
serde_json = "=1.0.154"
