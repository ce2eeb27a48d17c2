[package]
name = "project_monitor"
version = "0.1.0"
edition = "2021"
publish = false

[dependencies]
chrono = "=0.4.45"
serde = { version = "=1.0.229", features = ["derive"] }
serde_json = "=1.0.151"
reqwest = { version = "=0.12.28", default-features = false, features = ["json", "rustls-tls"] }
tokio = { version = "=1.53.2", features = ["rt-multi-thread", "macros", "signal", "time"] }
lettre = { version = "=0.11.23", default-features = false, features = ["smtp-transport", "builder", "rustls-tls"] }
futures = "=0.3.34"
