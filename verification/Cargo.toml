[package]
name = "mpc_cluster"
version = "0.1.0"
edition = "2021"
publish = false

[dependencies]
axum = "*"
clap = { version = "*", features = ["derive", "env"] }
eyre = "*"
reqwest = { version = "*", default-features = false }
tokio = { version = "*", features = ["full"] }
tower-http = { version = "*", features = ["set-header"] }

[dev-dependencies]
serde_json = "*"
