[package]
name = "ip_proofs"
version = "0.1.0"
edition = "2021"
publish = false

[dependencies]
ark-bls12-381 = "=0.5.0"
ark-ec = "=0.5.0"
ark-ff = "=0.5.0"
ark-poly = "=0.5.0"
ark-serialize = "=0.5.0"
blake2 = "=0.10.6"
digest = "=0.10.7"
itertools = "=0.15.0"
num-traits = "=0.2.19"
rand = "=0.8.8"
