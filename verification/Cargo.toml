[package]
name = "rscan"
version = "0.1.0"
edition = "2021"
publish = false

[dependencies]
clap = "2"
futures = "0.3"
tokio = { version = "1", features = ["net", "time", "rt-multi-thread", "macros"] }
