[package]
name = "cratesfyi"
version = "0.1.0"
edition = "2021"
publish = false

[dependencies]
chrono = "*"
once_cell = "*"
serde = { version = "*", features = ["derive"] }
serde_json = "*"
sqlx = { version = "*", default-features = false, features = ["postgres", "runtime-tokio"] }
tokio = { version = "*", features = ["rt-multi-thread"] }
