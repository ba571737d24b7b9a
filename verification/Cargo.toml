[package]
name = "book_registry"
version = "0.1.0"
edition = "2021"
publish = false

[dependencies]
axum = "0.7"
once_cell = "1"
serde = { version = "1", features = ["derive"] }
serde_json = "1"
tokio = { version = "1", features = ["macros", "rt-multi-thread", "net"] }
