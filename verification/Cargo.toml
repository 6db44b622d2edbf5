[package]
name = "wyrd"
version = "0.1.0"
edition = "2021"
publish = false

[dependencies]
anyhow = "=1.0.104"
clap = { version = "=4.6.7", features = ["derive"] }
serde = { version = "=1.0.229", features = ["derive"] }
serde_json = "=1.0.154"
ndarray = "=0.16.1"
ort = { version = "=2.0.0-rc.6", default-features = false, features = ["ndarray"] }
ort-sys = { version = "=2.0.0-rc.6", default-features = false }
tokenizers = { version = "=0.23.2", default-features = false, features = ["onig"] }
tracing = "=0.1.44"
