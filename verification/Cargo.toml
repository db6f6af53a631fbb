[package]
name = "servery"
version = "0.1.0"
edition = "2021"
publish = false

[dependencies]
bollard = "=0.21.1"
serde = { version = "=1.0.229", features = ["derive"] }
tokio = { version = "=1.53.2", features = ["full"] }
toml = "=1.1.7"
url = { version = "=2.5.8", features = ["serde"] }
warp = { version = "=0.4.3", features = ["server"] }
