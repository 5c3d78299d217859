[package]
name = "groupnest"
version = "0.1.1"
edition = "2021"
publish = false

[dependencies]
unicode-width = "0.2"
thiserror = "2"
termcolor = "1"
typed-arena = "2"
serde = { version = "1", features = ["derive"] }

[dev-dependencies]
serde_json = "1"
