[package]
name = "wishlist"
version = "0.1.0"
edition = "2021"
publish = false

[dependencies]
aes = "0.8"
url = "2"
serde = { version = "1", features = ["derive"] }
tokio = { version = "1", features = ["macros", "rt-multi-thread"] }
surrealdb = { version = "1", default-features = false, features = ["protocol-ws"] }
