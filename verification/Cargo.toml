[package]
name = "macrame"
version = "0.1.0"
edition = "2021"
publish = false

[dependencies]
libsql = { version = "0.9.30", default-features = false, features = ["core"] }
serde = { version = "1", features = ["derive"] }
thiserror = "2"
tokio = { version = "1", features = ["rt", "macros", "sync", "time"] }
tracing = "0.1"
