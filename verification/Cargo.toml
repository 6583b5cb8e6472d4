[package]
name = "kv_web"
version = "0.1.0"
edition = "2021"
publish = false

[dependencies]
bincode = "1"
cust = "0.3"
rayon = "1"
serde = { version = "1", features = ["derive"] }
