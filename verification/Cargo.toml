[package]
name = "term_nim"
version = "0.1.0"
edition = "2021"
publish = false

[dependencies]
rand = "0.8"
axum = "0.6"
reqwest = { version = "0.11", default-features = false }
tokio = { version = "1", features = ["macros", "rt-multi-thread"] }
crossterm = "0.25"
tui = "0.19"
local-ip-address = "0.5"
tracing-subscriber = "0.3"
