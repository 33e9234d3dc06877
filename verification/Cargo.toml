[package]
name = "bandix_plus"
version = "0.1.0"
edition = "2021"
publish = false

[dependencies]
anyhow = "1"
axum = "0.8"
axum-server = { version = "0.8", features = ["tls-rustls"] }
aya = "0.13"
aya-log = "0.2"
chrono = "=0.4.45"
clap = { version = "4", features = ["derive"] }
env_logger = "0.11"
libc = "0.2"
log = "0.4"
nix = { version = "*", features = ["net", "feature"] }
rustc-hash = "=2.1.3"
serde = { version = "1", features = ["derive"] }
serde_json = "=1.0.154"
tokio = { version = "1", features = ["full"] }
tower-http = { version = "0.6", features = ["cors"] }
uuid = { version = "=1.29.0", features = ["v4"] }
