[package]
name = "crewai"
version = "0.1.0"
edition = "2021"
publish = false

[dependencies]
serde = { version = "1", features = ["derive"] }
serde_json = "1"
chrono = { version = "0.4", features = ["serde"] }
uuid = { version = "1", features = ["v4", "serde"] }
tokio = { version = "1", features = ["rt-multi-thread", "sync", "macros", "time"] }
log = "0.4"
once_cell = "1"
lazy_static = "1"
anyhow = "1"
async-trait = "0.1"
futures = "0.3"
thiserror = "1"
md5 = "0.7"
rusqlite = { version = "*", features = ["bundled"] }
