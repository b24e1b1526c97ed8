[package]
name = "ledger"
version = "0.1.0"
edition = "2021"
publish = false

[dependencies]
sha2 = "0.10"
chrono = "0.4"
byteorder = "1"
ursa = { version = "0.3", default-features = false, features = ["ed25519"] }
tokio = { version = "1", features = ["full"] }
tracing = "0.1"
tracing-subscriber = "0.3"
thiserror = "1"
async-trait = "0.1"

[dev-dependencies]
bincode = "1.3"
serde = "1"
