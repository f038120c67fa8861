[package]
name = "fhe_ckks"
version = "0.1.0"
edition = "2021"
publish = false

[dependencies]
concrete-ntt = "*"
serde = { version = "1", features = ["derive"] }
serde_json = "1"
thiserror = "1"
petgraph = "0.6"
rand = "0.8"
rand_chacha = "0.3"
num-complex = "0.4"
rustfft = "6"
