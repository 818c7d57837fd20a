[package]
name = "cache_mut"
version = "0.1.0"
edition = "2021"
publish = false

[dependencies]
lru = "*"
parking_lot = { version = "*", features = ["arc_lock"] }
rmp-serde = "*"
serde = { version = "*", features = ["derive"] }
thiserror = "*"
