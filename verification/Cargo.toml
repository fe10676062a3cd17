[package]
name = "hashjoin"
version = "0.1.0"
edition = "2021"
publish = false

[dependencies]
rand = "0.8"
tokio = { version = "1", features = ["rt-multi-thread", "macros", "sync", "time"] }
hashbrown = "0.15"
dashmap = "6"
leapfrog = "0.3"

[dev-dependencies]
rand = "0.8"
