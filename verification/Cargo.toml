[package]
name = "token_ledger"
version = "0.1.0"
edition = "2021"
publish = false

[dependencies]
blake2b_simd = "=1.0.5"
ed25519-consensus = "=2.1.0"
jam-codec = { version = "=0.1.1", features = ["derive"] }
hex = "=0.4.3"
jam-types = "=0.1.29"
jam-pvm-common = { version = "=0.1.29", features = ["service"] }
