[package]
name = "ledger_sync"
version = "0.1.0"
edition = "2021"
publish = false

[dependencies]
regex = "1"
sha2 = "0.10"
serde = { version = "1", features = ["derive"] }
serde_json = "1"
rusqlite = { version = "*", features = ["bundled"] }
serde_rusqlite = "*"
refinery = { version = "*", features = ["rusqlite"] }
tauri = { version = "*", default-features = false }
