[package]
name = "df"
version = "0.1.0"
edition = "2021"
publish = false

[dependencies]
poll-promise = { version = "*", features = ["tokio"] }
tokio = { version = "*", features = ["rt-multi-thread", "macros", "time"] }
