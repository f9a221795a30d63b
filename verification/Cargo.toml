[package]
name = "sortviz"
version = "0.1.0"
edition = "2021"
publish = false

[dependencies]
png = "*"
rayon = "1"
rand = "0.9"
tokio = { version = "1", features = ["rt-multi-thread", "macros", "sync"] }
