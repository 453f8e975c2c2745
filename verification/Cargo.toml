[package]
name = "poseidon_merkle"
version = "0.1.0"
edition = "2021"

[dependencies]
bulletproofs = { version = "=4.0.0", default-features = false, features = ["std", "yoloproofs"] }
curve25519-dalek = { version = "=4.1.3", features = ["digest", "rand_core"] }
curve25519-dalek-ng = "=4.1.1"
merlin = "=3.0.0"
parity-scale-codec = "3"
rand = "=0.8.8"
sha2 = "=0.10.9"

[dev-dependencies]
rand_core = "=0.6.4"
