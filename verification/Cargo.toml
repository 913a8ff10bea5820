[package]
name = "pagebrowse"
version = "0.1.0"
edition = "2021"
publish = false

[dependencies]
base64 = "*"
serde_json = "*"
tokio = { version = "*", features = ["full"] }
futures = "*"
clap = { version = "*", features = ["cargo"] }
thiserror = "*"
