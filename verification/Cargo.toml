[package]
name = "icebucket"
version = "0.1.0"
edition = "2021"
publish = false

[dependencies]
sha2 = "=0.10.9"
serde = { version = "=1.0.229", features = ["derive"] }
serde_json = "=1.0.151"
tokio = { version = "=1.53.2", features = ["rt", "macros", "fs", "io-util", "time"] }
aws-config = "=1.12.0"
aws-sdk-s3 = "=1.152.0"
