[package]
name = "atc_chain"
version = "0.1.0"
edition = "2021"
publish = false

[dependencies]
sha2 = "0.10"
ripemd = "0.1"
bs58 = "0.5"
ed25519-dalek = "2"
getrandom = "0.3"
zeroize = "1"
serde = { version = "1", features = ["derive"] }
serde_json = "1"
hex = "0.4"
