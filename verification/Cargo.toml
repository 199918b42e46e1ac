[package]
name = "bittorrent"
version = "0.1.0"
edition = "2021"
publish = false

[dependencies]
anyhow = "1"
rand = "*"
reqwest = { version = "*", default-features = false }
sha1 = "*"
tokio = { version = "1", features = ["full"] }
tokio-util = "*"
url = "2"
urlencoding = "2"
