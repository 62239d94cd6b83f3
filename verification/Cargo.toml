[package]
name = "rigbake"
version = "0.1.0"
edition = "2021"
publish = false

[dependencies]
bincode = "1"
collada = "*"
nalgebra = { version = "*", features = ["serde-serialize"] }
serde = { version = "1", features = ["derive"] }
