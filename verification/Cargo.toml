[package]
name = "pcr_combine"
version = "0.1.0"
edition = "2021"
publish = false

[dependencies]
sha2 = "*"
serde = { version = "*", features = ["derive"] }
serde_with = { version = "*", features = ["hex", "macros"] }
serde_json = "*"
