[package]
name = "lgbm_compute"
version = "0.1.0"
edition = "2021"
publish = false

[dependencies]
cubecl = { version = "0.10", default-features = false, features = ["std"] }
cubecl-hip-sys = "*"
serde = { version = "1", features = ["derive"] }
