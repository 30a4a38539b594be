[package]
name = "schema_migrations"
version = "0.1.0"
edition = "2021"
publish = false

[dependencies]
anyhow = "*"
tokio = { version = "*", features = ["rt-multi-thread", "macros"] }
tokio-postgres = "*"
