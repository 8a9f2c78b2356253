[package]
name = "task_dispatch"
version = "0.1.0"
edition = "2021"
publish = false

[dependencies]
uuid = { version = "*", features = ["v4"] }
actix-web = "*"
tokio = { version = "*", features = ["macros", "rt-multi-thread", "time", "sync"] }
reqwest = { version = "*", default-features = false, features = ["json"] }
redis = { version = "*", features = ["tokio-comp"] }
serde = { version = "*", features = ["derive"] }
serde_json = "*"
anyhow = "*"
thiserror = "*"
log = "*"
env_logger = "*"
dotenv = "*"
envy = "*"
rand = "*"
