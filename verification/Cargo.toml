[package]
name = "mg_vault"
version = "0.1.0"
edition = "2021"
publish = false

[dependencies]
sha2 = "0.10"
yaml-edit = "*"
serde = { version = "1", features = ["derive"] }
serde_json = "1"
clap = { version = "4", features = ["derive"] }
rusqlite = { version = "*", features = ["bundled"] }
rustix = { version = "*", features = ["fs", "process", "net"] }
thiserror = "*"
