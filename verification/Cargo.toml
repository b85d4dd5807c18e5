[package]
name = "streamer"
version = "0.1.0"
edition = "2021"
publish = false

[dependencies]
ogg = "0.9"
tokio = { version = "1", features = ["rt-multi-thread", "sync", "macros", "time"] }
bytes = "1"
log = "0.4"
