[package]
name = "conch_core"
version = "0.1.0"
edition = "2021"
publish = false

[dependencies]
bm25 = "=2.3.2"
chrono = { version = "=0.4.45", features = ["serde"] }
fastembed = "*"
rusqlite = { version = "=0.41.0", features = ["bundled"] }
serde = { version = "=1.0.229", features = ["derive"] }
serde_json = "=1.0.154"
thiserror = "=2.0.21"
tokio = { version = "=1.54.1", features = ["macros", "rt-multi-thread", "io-std"] }
rmcp = { version = "=3.7.0", features = ["server", "macros", "transport-io"] }
schemars = "=1.2.3"
