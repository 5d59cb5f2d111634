[package]
name = "comic_catalog"
version = "0.1.0"
edition = "2021"
publish = false

[dependencies]
base64 = "0.22"
notify = "6"
rocket = { version = "0.5", features = ["json"] }
serde = { version = "1", features = ["derive"] }
tokio = { version = "1", features = ["full"] }
urlencoding = "2"
zip = { version = "0.6", default-features = false, features = ["deflate"] }
