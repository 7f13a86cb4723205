[package]
name = "olea-core"
version = "1.0.0"
edition = "2021"
publish = false

[dependencies]
serde_json = "1"
thiserror = "1"
