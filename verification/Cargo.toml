[package]
name = "johnnybt_engine"
version = "0.1.0"
edition = "2021"
publish = false

[dependencies]
ndarray = "0.16"
polars = { version = "*", default-features = false, features = ["dtype-struct"] }
rayon = "1"
serde = { version = "1", features = ["derive"] }
