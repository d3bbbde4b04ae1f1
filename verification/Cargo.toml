[package]
name = "lexo"
version = "0.1.0"
edition = "2021"
publish = false

[dependencies]
pgrx = "=0.18.1"
serde = { version = "=1.0.229", features = ["derive"] }
