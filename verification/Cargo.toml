[package]
name = "kassigner"
version = "1.0.4"
edition = "2021"
publish = false

[dependencies]
k256 = { version = "0.13", features = ["schnorr"] }
rand_core = { version = "0.6", features = ["getrandom"] }
sha2 = "0.10"
zeroize = "1"
