[package]
name = "feed_sync"
version = "0.1.0"
edition = "2021"
publish = false

[dependencies]
feed-rs = "*"
regex = "1"
reqwest = "*"
rocket = { version = "0.5", features = ["json"] }
rss = "*"
rusqlite = "*"
serde_json = "1"
tokio = { version = "1", features = ["rt-multi-thread", "macros"] }
