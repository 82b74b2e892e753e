[package]
name = "nrm"
version = "0.1.0"
edition = "2021"
publish = false

[dependencies]
anyhow = "1"
env_logger = "*"
futures = "0.3"
log = "0.4"
once_cell = "1"
reqwest = { version = "0.11", features = ["json"] }
serde = { version = "1", features = ["derive"] }
serde_json = "1"
ssri = "*"
structopt = "0.3"
tokio = { version = "1", features = ["fs", "macros", "rt-multi-thread", "sync"] }
