[package]
name = "env_applier"
version = "1.0.0"
edition = "2021"
publish = false

[dependencies]
regex = "1"
toml = "0.8"
anyhow = "1"
thiserror = "1"
filetime = "0.2"
clap = { version = "4", features = ["derive"] }
tokio = { version = "1", features = ["fs", "macros", "rt-multi-thread"] }
