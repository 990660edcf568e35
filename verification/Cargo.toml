[package]
name = "bloom2"
version = "0.1.0"
edition = "2021"
publish = false

[dependencies]
bytes = "1"
serde = { version = "1", features = ["derive"] }

[dev-dependencies]
twox-hash = "1"
