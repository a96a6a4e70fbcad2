[package]
name = "beamup"
version = "0.1.0"
edition = "2021"
publish = false

[dependencies]
anyhow = "1"
bytes = "1"
clap = { version = "4", features = ["derive"] }
directories = "5"
flate2 = "1"
futures-util = { version = "0.3", features = ["sink"] }
ignore = "0.4"
indicatif = "0.17"
inotify = "0.11"
lz4_flex = "0.11"
notify = "6"
rmp-serde = "1"
serde = { version = "1", features = ["derive"] }
serde_json = "1"
tar = "0.4"
tokio = { version = "1", features = ["full"] }
tokio-util = { version = "0.7", features = ["codec"] }
tracing = "0.1"
tracing-subscriber = { version = "0.3", features = ["env-filter"] }
xxhash-rust = { version = "0.8", features = ["xxh3"] }
