[package]
name = "opencode_config"
version = "0.1.0"
edition = "2021"
publish = false

[dependencies]
regex = "1"
similar = "2"
serde = { version = "1", features = ["derive"] }
serde_json = "1"
serde_yaml = "0.9"
clap = { version = "4", features = ["derive"] }
clap_complete = "4"
dialoguer = "0.11"
directories = "6"
glob = "0.3"
jsonschema = { version = "0.33", default-features = false }
tempfile = "3"
tracing = "0.1"
tracing-subscriber = { version = "0.3", features = ["env-filter"] }
anyhow = "1"
thiserror = "2"

[dev-dependencies]
