[package]
name = "consensus_core"
version = "0.1.0"
edition = "2021"
publish = false

[dependencies]
blake3 = { version = "1", default-features = false, features = ["pure"] }
bs58 = { version = "0.4", features = ["check"] }
ed25519-dalek = "2"
nom = "7"
serde = { version = "1", features = ["derive"] }
tokio = { version = "1", features = ["macros", "rt", "sync", "time"] }
