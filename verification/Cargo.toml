[package]
name = "firelocal-core"
version = "0.1.0"
edition = "2021"
publish = false

[dependencies]
crc32fast = "1"
serde_json = "1"
serde = { version = "1", features = ["derive"] }
uuid = { version = "1", features = ["v4"] }
anyhow = "1"
log = "0.4"
libc = "0.2"
tokio = { version = "1", features = ["rt", "time", "sync"] }
clap = { version = "4", features = ["derive"] }
reqwest = { version = "0.11", default-features = false, features = ["blocking", "json"] }
dotenv = "0.15"
rustyline = "*"
owo-colors = "*"
