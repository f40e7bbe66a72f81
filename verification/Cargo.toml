[package]
name = "intscrape"
version = "0.1.0"
edition = "2021"
publish = false

[dependencies]
roaring = "*"
intmap = "*"
url = "2"
rusqlite = { version = "*", features = ["bundled"] }
serde = { version = "1", features = ["derive"] }
serde_json = "1"
clap = { version = "4", features = ["derive"] }
jwalk = "*"
parking_lot = "*"
tokio = { version = "1", features = ["rt-multi-thread", "macros"] }
