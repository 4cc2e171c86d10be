[package]
name = "ardiex"
version = "0.1.0"
edition = "2021"
publish = false

[dependencies]
sha2 = "*"
cron = "*"
serde = { version = "*", features = ["derive"] }
serde_json = "*"
chrono = "*"
clap = { version = "*", features = ["derive"] }
tokio = { version = "*", features = ["rt-multi-thread", "macros", "sync", "time", "signal"] }
notify = "*"
anyhow = "*"
walkdir = "*"
reqwest = { version = "*", default-features = false, features = ["blocking", "json"] }
flate2 = "*"
tar = "*"
zip = { version = "*", default-features = false }
