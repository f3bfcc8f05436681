[package]
name = "gmap_folding"
version = "0.1.0"
edition = "2021"
publish = false

[dependencies]
itertools = "*"
nalgebra = "*"
parry2d-f64 = "*"
serde = { version = "*", features = ["derive"] }
serde_json = "*"
thiserror = "*"
