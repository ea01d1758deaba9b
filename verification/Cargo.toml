[package]
name = "url_poller"
version = "0.1.0"
edition = "2021"
publish = false

[dependencies]
sqlx = { version = "*", features = ["postgres", "runtime-tokio", "chrono"] }
tokio = { version = "*", features = ["rt-multi-thread", "macros", "time"] }
serde_json = "*"
chrono = "*"
log = "*"
