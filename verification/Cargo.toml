[package]
name = "homu"
version = "0.1.0"
edition = "2021"
publish = false

[dependencies]
clap = { version = "*", features = ["cargo"] }
env_logger = "*"
log = "*"
once_cell = "*"
regex = "*"
serde = { version = "*", features = ["derive"] }
serde_json = "*"
sqlx = { version = "*", default-features = false, features = ["sqlite", "runtime-tokio"] }
time = "*"
tokio = { version = "*", features = ["rt", "sync"] }
toml = "*"
