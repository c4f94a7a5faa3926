[package]
name = "yantra"
version = "0.3.0"
edition = "2021"
publish = false

[dependencies]
regex = "=1.13.1"
ring = "=0.17.14"
chrono = "0.4"
uuid = { version = "1", features = ["v4"] }
clap = { version = "4", features = ["derive"] }
crossterm = "0.28"
serde = { version = "1", features = ["derive"] }
serde_json = "1"
rusqlite = { version = "0.32", features = ["bundled"] }
