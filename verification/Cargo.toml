[package]
name = "canvas_replica"
version = "0.1.0"
edition = "2021"
publish = false

[dependencies]
rand = "0.8"
serde = { version = "1", features = ["derive"] }
serde_json = "1"
log = "0.4"
env_logger = "*"
futures = "0.3"
futures-util = "0.3"
tokio = { version = "1", features = ["rt", "macros", "net", "sync", "time", "io-util"] }
tokio-postgres = "0.7"
tokio-postgres-migration = "*"
deadpool-postgres = "*"
actix-web = { version = "4", default-features = false, features = ["macros"] }
actix-ws = "*"
actix-cors = "*"
