[package]
name = "ook"
version = "0.1.0"
edition = "2021"
publish = false

[dependencies]
serde_json = "1"
urlencoding = "2"
linked_hash_set = "*"
rusqlite = { version = "0.40", features = ["bundled"] }
sqlite-vec = "0.1"
plist = "1"
reqwest = { version = "0.12", default-features = false, features = ["blocking", "json", "rustls-tls"] }
ort = { version = "=2.0.0-rc.13", default-features = false, features = ["std"] }
tokenizers = { version = "0.21", default-features = false, features = ["onig"] }
