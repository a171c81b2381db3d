[package]
name = "cloud_sd"
version = "0.1.0"
edition = "2021"
publish = false

[dependencies]
anyhow = "*"
chrono = "*"
clap = { version = "*", features = ["derive"] }
fern = "*"
hcloud = "*"
ipnet = "*"
log = "*"
serde = { version = "*", features = ["derive"] }
serde_yaml = "*"
tera = "*"
tokio = { version = "*", features = ["rt-multi-thread", "macros", "time"] }
