[package]
name = "rust_embedding"
version = "0.1.0"
edition = "2021"
publish = false

[dependencies]
serde = { version = "1", features = ["derive"] }
serde_json = "1"
tokio = { version = "1", features = ["rt-multi-thread", "macros", "net"] }
axum = "*"
reqwest = { version = "*", default-features = false, features = ["json"] }
dotenv = "0.15"
