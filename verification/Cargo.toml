[package]
name = "generalist"
version = "0.1.0"
edition = "2021"
publish = false

[dependencies]
burn = { version = "=0.21.0", default-features = false, features = ["ndarray", "autodiff"] }
burn-core = { version = "=0.21.0", default-features = false, features = ["std"] }
serde = { version = "1", features = ["derive"] }
serde_json = "1"
