[package]
name = "fugue"
version = "0.1.0"
edition = "2021"
publish = false

[dependencies]
roxmltree = "=0.21.2"
zip = { version = "=9.2.2", default-features = false, features = ["deflate-flate2-zlib-rs"] }
serde = { version = "=1.0.229", features = ["derive"] }
serde_json = "=1.0.154"
