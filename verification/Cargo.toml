[package]
name = "maya"
version = "0.1.0"
edition = "2021"

[dependencies]
ark-ec = "0.5"
ark-ff = "0.5"
ark-secp256r1 = "0.5"
ark-serialize = "0.5"
ark-std = "0.5"
byteorder = "1"
curve25519-dalek = { version = "4", features = ["rand_core", "digest"] }
digest = "0.10"
merlin = "3"
rand = "0.8"
serde = { version = "1", features = ["derive"] }
sha3 = "0.10"
thiserror = "1"
zeroize = "1"
