[package]
name = "fvcs"
version = "0.1.0"
edition = "2021"
publish = false

[dependencies]
sha2 = "0.10"
flate2 = "1"
anyhow = "1"
clap = { version = "4", features = ["derive"] }
colored = "*"
chrono = "0.4"
serde = { version = "1", features = ["derive"] }
serde_json = "1"
walkdir = "2"
reqwest = { version = "0.12", default-features = false, features = ["blocking", "json", "rustls-tls"] }
rpassword = "7"
similar = "2"
axum = "0.8"
tokio = { version = "1", features = ["macros", "rt-multi-thread", "net", "time"] }
rusqlite = { version = "*", features = ["bundled"] }
getrandom = "0.3"
