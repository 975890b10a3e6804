[package]
name = "triples"
version = "0.1.0"
edition = "2021"
publish = false

[dependencies]
clap = { version = "*", features = ["derive"] }
sqlx = { version = "*", default-features = false, features = ["sqlite", "runtime-tokio", "macros"] }
tokio = { version = "*", features = ["rt-multi-thread", "macros", "io-std", "io-util"] }
tracing = "*"
tracing-subscriber = "*"
