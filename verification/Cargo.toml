[package]
name = "regex_visualiser"
version = "0.1.0"
edition = "2021"
publish = false

[dependencies]
regex = "=1.13.1"
regex-syntax = "=0.8.11"
egui = "=0.20.1"
eframe = { version = "=0.20.1", default-features = false, features = ["glow", "persistence"] }
serde = { version = "=1.0.229", features = ["derive"] }
tracing-subscriber = "=0.3.23"
tracing-wasm = "=0.2.1"
console_error_panic_hook = "=0.1.7"
