[package]
name = "rune_ring"
version = "0.1.0"
edition = "2021"
publish = false

[dependencies]
rand_core = { version = "=0.6.4", features = ["getrandom"] }
rand_chacha = "=0.3.1"
sha3 = "=0.10.9"
zeroize = "=1.9.1"
serde = { version = "=1.0.229", features = ["derive"] }

[dev-dependencies]
rand = "=0.8.8"
