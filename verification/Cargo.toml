[package]
name = "wal_columns"
version = "0.1.0"
edition = "2021"
publish = false

[dependencies]
arrow = { version = "53", default-features = false }
async-trait = "0.1"
jsonb = { version = "0.4", default-features = false }
rand = "0.8"
serde = { version = "1", features = ["derive"] }
serde_json = "1"
tokio = { version = "1", features = ["rt", "sync"] }
tonic = { version = "0.12", default-features = false }
