[package]
name = "tul"
version = "0.1.0"
edition = "2021"
publish = false

[dependencies]
sha2 = "*"
prefix-trie = "*"
ipnet = "*"
serde = { version = "*", features = ["derive"] }
tokio = { version = "*", features = ["sync", "io-util"] }
