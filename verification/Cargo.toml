[package]
name = "uvls"
version = "0.1.0"
edition = "2021"
publish = false

[dependencies]
ropey = "1"
tokio = { version = "1", default-features = false, features = ["rt-multi-thread", "macros", "sync", "time"] }
tower-lsp = "0.20"
dashmap = "5"
log = "0.4"
