[package]
name = "scalable_cuckoo_filter"
version = "0.1.0"
edition = "2021"
publish = false

[dependencies]
rand = "0.9"
siphasher = "1"
serde = { version = "1", features = ["derive"] }
serde_bytes = "0.11"

[dev-dependencies]
serde_json = "1"
