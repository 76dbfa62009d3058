[package]
name = "burn-kda"
version = "0.1.0"
edition = "2021"
publish = false

[dependencies]
burn = { version = "=0.21.0", default-features = false }
burn-gdn2 = { version = "=0.5.1", default-features = false }
burn-ndarray = { version = "=0.21.0", default-features = false }
