[package]
name = "obsidian_vault"
version = "0.1.0"
edition = "2021"
publish = false

[dependencies]
bincode = { version = "=2.0.1", features = ["serde"] }
chrono = "=0.4.45"
fastembed = { version = "=5.17.4", default-features = false, features = ["ort-load-dynamic", "hf-hub-rustls-tls"] }
globset = "=0.4.21"
notify = "=8.2.1"
notify-debouncer-mini = "=0.7.0"
pulldown-cmark = { version = "=0.13.6", default-features = false }
regex = "=1.13.1"
reqwest = { version = "=0.12.28", default-features = false, features = ["blocking", "json", "rustls-tls"] }
serde = { version = "=1.0.229", features = ["derive"] }
serde_json = "=1.0.154"
serde_yaml = "=0.9.34"
tantivy = "=0.27.0"
tokio = { version = "=1.54.1", features = ["rt", "rt-multi-thread", "sync", "time", "macros"] }
tracing = "=0.1.44"
unicode-normalization = "=0.1.26"
walkdir = "=2.5.0"
zeroize = "=1.9.1"
