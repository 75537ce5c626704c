[package]
name = "genoxide"
version = "0.6.0"
edition = "2021"
publish = false

[dependencies]
rand = "0.10"
rand_chacha = "0.10"
serde = { version = "1", features = ["derive"] }
