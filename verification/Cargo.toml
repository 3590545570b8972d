[package]
name = "route_core"
version = "0.1.0"
edition = "2021"
publish = false

[dependencies]
http = "*"
pingora = "*"
pingora-load-balancing = "*"
tokio = { version = "*", features = ["sync", "time", "net", "rt-multi-thread", "macros"] }
async-trait = "*"
tracing = "*"
tracing-subscriber = "*"
