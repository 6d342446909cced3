[package]
name = "ladder_legends_uploader"
version = "0.1.0"
edition = "2021"
publish = false

[dependencies]
sha2 = "0.10"
dirs = "*"
serde = { version = "1", features = ["derive"] }
serde_json = "1"
reqwest = { version = "0.12", default-features = false, features = ["json", "multipart", "rustls-tls"] }
tokio = { version = "1", features = ["rt-multi-thread", "macros", "sync", "time", "fs"] }
notify = "*"
s2protocol = "*"
