[package]
name = "zeta"
version = "0.1.0"
edition = "2021"
publish = false

[dependencies]
bytes = "*"
futures = "*"
log = "*"
reqwest = { version = "*", features = ["stream"] }
rug = "*"
rusqlite = { version = "*", features = ["bundled"] }
sqlite-vfs-http = "*"
tokio = { version = "*", features = ["macros", "rt-multi-thread"] }
tokio-util = { version = "*", features = ["io"] }
url = "*"
