[package]
name = "spryteo"
version = "0.1.0"
edition = "2021"
publish = false

[dependencies]
image = "0.25"
moxcms = "*"
serde = { version = "1", features = ["derive"] }
serde_json = "1"
thiserror = "*"
