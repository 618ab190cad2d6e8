[package]
name = "since_until"
version = "0.1.0"
edition = "2021"
publish = false

[dependencies]
chrono = { version = "0.4", features = ["serde"] }
serde = { version = "1", features = ["derive"] }
serde_json = "1"
directories = "*"
rmcp = { version = "*", features = ["server", "macros", "transport-io"] }
schemars = "1"
tokio = { version = "1", features = ["macros", "rt-multi-thread", "io-std"] }
anyhow = "1"
