[package]
name = "screenpipe_db"
version = "0.1.0"
edition = "2021"
publish = false

[dependencies]
chrono = "0.4"
serde_json = "1"
anyhow = "1"
futures = "0.3"
tracing = "0.1"
sqlx = { version = "0.8", default-features = false, features = ["runtime-tokio", "sqlite", "chrono"] }
tokio = { version = "1", features = ["rt-multi-thread", "macros", "time"] }
sqlite-vec = "0.1"
libsqlite3-sys = "0.30"
zerocopy = "0.7"
