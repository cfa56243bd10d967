[package]
name = "p2p"
version = "0.1.0"
edition = "2021"
publish = false

[dependencies]
async-trait = "0.1"
ciborium = "0.2"
futures = "0.3"
iroh = "*"
n0-future = "*"
parking_lot = "0.12"
serde = { version = "1", features = ["derive"] }
serde_bytes = "0.11"
sha2 = "0.10"
thiserror = "2"
tokio = { version = "1", features = ["macros", "rt", "sync", "time"] }
unsigned-varint = "0.8"

[dev-dependencies]
hex = "0.4"
