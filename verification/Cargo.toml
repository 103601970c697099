[package]
name = "elm-solve-deps"
version = "0.1.0"
edition = "2021"
publish = false

[dependencies]
pubgrub = { version = "0.2", features = ["serde"] }
serde = { version = "1", features = ["derive"] }
serde_json = "1"
thiserror = "1"
anyhow = "1"
dirs = "3"
ureq = "1.5"
