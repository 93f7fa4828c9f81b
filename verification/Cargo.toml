[package]
name = "opqueue"
version = "0.1.0"
edition = "2021"
publish = false

[dependencies]
dashmap = "*"
serde = { version = "*", features = ["derive"] }
thiserror = "*"
jsonrpsee = { version = "*", features = ["macros", "server", "client-core"] }
bip32 = "*"
