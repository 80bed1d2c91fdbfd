[package]
name = "clr1"
version = "0.1.0"
edition = "2021"
publish = false

[dependencies]
serde = { version = "1", features = ["derive"] }
thiserror = "2"
derive_more = { version = "2", features = ["from"] }
