[package]
name = "xgboost_rs"
version = "0.1.0"
edition = "2021"
publish = false

[dependencies]
anyhow = "=1.0.104"
bytemuck = { version = "=1.25.2", features = ["derive", "extern_crate_alloc"] }
cubecl = { version = "=0.11.3", default-features = false }
rayon = "=1.12.0"
thiserror = "=2.0.21"
