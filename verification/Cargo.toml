[package]
name = "event_replay"
version = "0.1.0"
edition = "2021"
publish = false

[dependencies]
axum = { version = "*", features = ["ws"] }
clap = { version = "*", features = ["derive"] }
rand = "*"
tokio = { version = "*", features = ["rt-multi-thread", "macros", "net", "time"] }
