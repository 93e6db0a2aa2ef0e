[package]
name = "herd"
version = "0.1.0"
edition = "2021"
publish = false

[dependencies]
umwelt = "=0.0.1"
async-nats = "=0.50.0"
quinn = "=0.11.12"
rcgen = "=0.14.10"
tokio = { version = "=1.54.1", features = ["rt-multi-thread", "macros", "time", "net"] }
