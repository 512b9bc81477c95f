[package]
name = "rfed"
version = "0.1.0"
edition = "2021"
publish = false

[dependencies]
ctrlc = "3"
ed25519-dalek = "1"
rand = "0.8"
rmp-serde = "1"
rmpv = "1"
serde = { version = "1", features = ["derive"] }
sha2 = "0.10"
x25519-dalek = { version = "2", features = ["static_secrets"] }
