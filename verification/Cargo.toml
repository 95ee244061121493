[package]
name = "omnia_consensus"
version = "0.1.0"
edition = "2021"
publish = false

[dependencies]
blake3 = "1"
sha2 = "0.10"
ed25519-dalek = "2"
getrandom = "0.2"
hex = "0.4"
subtle = "2"
serde = { version = "1", features = ["derive"] }
postcard = { version = "1", features = ["alloc"] }
redb = "2"
thiserror = "1"

