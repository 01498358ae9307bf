[package]
name = "wallet_nostr"
version = "0.1.0"
edition = "2021"
publish = false

[dependencies]
async-trait = "=0.1.92"
itertools = "=0.13.0"
nostr-database = "=0.44.0"
nostr-sdk = { version = "=0.44.1", features = ["nip44"] }
serde = { version = "=1.0.229", features = ["derive"] }
serde_json = "=1.0.154"
thiserror = "=1.0.69"
tokio = { version = "=1.54.1", features = ["sync"] }
url = { version = "=2.5.8", features = ["serde"] }
