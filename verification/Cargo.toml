[package]
name = "engine"
version = "0.1.0"
edition = "2021"
publish = false

[dependencies]
rand = "=0.8.8"
rand_chacha = "=0.3.1"
rs_poker = { version = "=4.1.0", default-features = false }
serde = { version = "=1.0.229", features = ["derive"] }
thiserror = "=1.0.69"
