[package]
name = "kcv"
version = "0.1.0"
edition = "2021"
publish = false

[dependencies]
clap = { version = "4", features = ["derive"] }
libc = "0.2"
security-framework = "3"
serde_json = "1"
