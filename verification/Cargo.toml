[package]
name = "portspy"
version = "0.1.0"
edition = "2021"
publish = false

[dependencies]
anyhow = "=1.0.104"
clap = { version = "=4.6.7", features = ["derive"] }
colored = "=2.2.0"
serde = { version = "=1.0.229", features = ["derive"] }
serde_json = "1"
sysinfo = "=0.33.1"
