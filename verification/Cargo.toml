[package]
name = "herbalist"
version = "0.1.0"
edition = "2021"
publish = false

[dependencies]
anyhow = "1"
clap = { version = "4", default-features = false, features = ["std", "derive", "env", "help", "usage", "error-context"] }
dirs = "=7.0.0"
fastembed = { version = "=4.9.1", default-features = false, features = ["ort-load-dynamic", "hf-hub-rustls-tls"] }
hex = "=0.4.3"
ignore = "=0.4.34"
notify = "=8.2.1"
rmcp = { version = "=1.8.0", default-features = false, features = ["server", "transport-io"] }
rusqlite = { version = "=0.41.1", features = ["bundled"] }
serde = { version = "1", features = ["derive"] }
serde_json = "1"
serde_yaml = "=0.9.34"
sha2 = "=0.10.9"
tokio = { version = "1", features = ["rt-multi-thread", "macros"] }
tracing = "0.1"
tracing-subscriber = { version = "0.3", default-features = false, features = ["env-filter", "fmt", "std"] }

[dev-dependencies]
regex = "1"
