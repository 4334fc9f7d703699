[package]
name = "codegen_lang"
version = "1.0.0"
edition = "2021"
publish = false

[dependencies]
ir-lang = { version = "=1.0.0", features = ["serde"] }
serde = { version = "=1.0.229", features = ["derive"] }
