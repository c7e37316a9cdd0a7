[package]
name = "mini_mito"
version = "0.1.0"
edition = "2021"
publish = false

[dependencies]
arrow = { version = "=59.3.2", default-features = false }
arrow-schema = "=59.3.2"
base64 = "=0.23.1"
crc32fast = "=1.5.4"
crossbeam-skiplist = "=0.1.3"
futures = "=0.3.34"
parquet = { version = "=59.3.2", default-features = false, features = ["arrow"] }
rand = "=0.10.3"
serde = { version = "1", features = ["derive"] }
serde_json = "=1.0.154"
tempfile = "=3.27.0"
tokio = { version = "=1.54.1", features = ["rt-multi-thread", "macros"] }
