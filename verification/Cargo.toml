[package]
name = "sift"
version = "0.1.0"
edition = "2021"
publish = false

[dependencies]
glob = "0.3"
serde = { version = "1", features = ["derive"] }
serde_json = "1"
thiserror = "2"
anyhow = "1"
colored = "3"
futures = "0.3"
tokio = { version = "1", features = ["macros", "rt-multi-thread", "process"] }
walkdir = "2"
ignore = "0.4"
clap = { version = "4", features = ["derive"] }
tantivy = "0.24"
ort = "=2.0.0-rc.15"
hf-hub = "0.4"
tokenizers = "0.21"

[dev-dependencies]
tempfile = "3"
