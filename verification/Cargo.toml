[package]
name = "twinsong"
version = "0.1.0"
edition = "2021"
publish = false

[dependencies]
uuid = { version = "=1.27.0", features = ["v4", "serde"] }
tokio = { version = "*", features = ["full"] }
axum = { version = "*", features = ["ws"] }
futures-util = "*"
serde = { version = "*", features = ["derive"] }
serde_json = "*"
anyhow = "*"
clap = { version = "*", features = ["derive"] }
ctrlc = "*"
tracing = "*"
tracing-subscriber = "*"
termcolor = "*"
which = "*"
jiff = "*"
tokio-util = { version = "*", features = ["codec"] }
bincode = "1"
