[package]
name = "tingfm_radio"
version = "0.1.0"
edition = "2021"
publish = false

[dependencies]
regex = "1"
serde = { version = "1", features = ["derive"] }
serde_json = "1"
urlencoding = "2"
reqwest = { version = "0.12", default-features = false, features = ["blocking", "json"] }
tiny_http = "0.12"
rusqlite = { version = "0.31", features = ["bundled"] }
dirs = "5"
url = "2"
