[package]
name = "grind"
version = "0.8.0"
edition = "2021"
publish = false

[dependencies]
clap = { version = "4", features = ["derive"] }
flate2 = "1"
futures-util = "0.3"
md5 = "0.7"
quick-xml = { version = "0.37", features = ["serialize"] }
regex = "1"
reqwest = { version = "0.12", default-features = false, features = ["rustls-tls", "stream"] }
semver = "1"
serde = { version = "1", features = ["derive"] }
serde_json = "1"
serde_path_to_error = "0.1"
serde-xml-rs = "0.6"
serde_yaml = "0.9"
tar = "0.4"
tokio = { version = "1", features = ["full"] }
walkdir = "2"
zip = { version = "2", default-features = false, features = ["deflate"] }
