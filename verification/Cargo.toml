[package]
name = "plonk"
version = "0.1.0"
edition = "2021"
publish = false

[dependencies]
ark-ff = "0.5"
ark-ec = "0.5"
ark-poly = "0.5"
ark-serialize = "0.5"
ark-std = "0.5"
ark-bls12-381 = "0.5"
sha2 = "0.10"

[dev-dependencies]
rand = "0.8"
rand_chacha = "0.3"
