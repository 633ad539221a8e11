[package]
name = "bpa"
version = "0.1.0"
edition = "2021"
publish = false

[dependencies]
lru = "*"
metrics = "*"
rand = "0.10"
serde = { version = "1", features = ["derive"] }
smallvec = "1"
time = "0.3"
tracing = "0.1"
