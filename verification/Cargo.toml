[package]
name = "lametrobusping"
version = "0.1.0"
edition = "2021"
publish = false

[dependencies]
axum = "*"
bincode = "1"
clap = { version = "*", features = ["derive"] }
glob = "*"
reqwest = { version = "*", default-features = false, features = ["json"] }
serde = { version = "*", features = ["derive"] }
tokio = { version = "*", features = ["macros", "rt-multi-thread", "time", "net"] }
tower-http = { version = "*", features = ["cors"] }
