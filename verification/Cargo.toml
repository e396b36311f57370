[package]
name = "helix_notebook"
version = "0.1.0"
edition = "2021"
publish = false

[dependencies]
regex = "1"
unicode-width = "0.2"
serde = { version = "1", features = ["derive"] }
serde_json = "1"
anyhow = "1"
tokio = { version = "1", features = ["fs", "io-util", "process", "time", "rt-multi-thread"] }
nix = { version = "0.29", features = ["signal", "process"] }
log = "0.4"
bincode = "1"
steel-core = "*"
