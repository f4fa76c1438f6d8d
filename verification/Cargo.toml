[package]
name = "kluars"
version = "0.1.0"
edition = "2021"
publish = false

[dependencies]
mlua = { version = "=0.12.2", features = ["lua54", "vendored", "serialize"] }
serde_json = "=1.0.151"
kube = { version = "=3.1.0", default-features = false, features = ["client", "rustls-tls"] }
k8s-openapi = { version = "=0.27.1", features = ["latest"] }
tokio = { version = "=1.53.2", features = ["macros", "rt-multi-thread"] }
clap = { version = "=4.6.7", features = ["derive"] }
anyhow = "=1.0.104"
log = "*"
env_logger = "=0.11.11"

[dev-dependencies]
serde_yaml = "=0.9.34"
