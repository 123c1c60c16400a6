[package]
name = "elden_mod_loader_gui"
version = "0.9.7"
edition = "2021"
publish = false

[dependencies]
rust-ini = "=0.21.3"
tracing = "=0.1.44"
tracing-subscriber = { version = "=0.3.23", features = ["env-filter"] }
tracing-appender = "=0.2.5"
