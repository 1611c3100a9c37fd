[package]
name = "leviath_runtime"
version = "0.1.0"
edition = "2021"
publish = false

[dependencies]
serde_json = "1"
serde = { version = "1", features = ["derive"] }
tokio = { version = "1", features = ["sync", "time", "rt", "macros"] }
chrono = "0.4"
bevy_ecs = { version = "*", default-features = false, features = ["std"] }
tracing = "0.1"
