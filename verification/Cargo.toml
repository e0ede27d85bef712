[package]
name = "rustdb"
version = "0.1.0"
edition = "2021"
publish = false

[dependencies]
bincode = "1"
clap = { version = "4", features = ["derive"] }
futures-util = { version = "0.3", features = ["sink"] }
http = "1"
nom = "7"
serde = { version = "1", features = ["derive"] }
tokio = { version = "1", features = ["full"] }
tokio-websockets = { version = "*", features = ["client", "server", "sha1_smol", "fastrand"] }
