[package]
name = "commonplace"
version = "0.1.0"
edition = "2021"
publish = false

[dependencies]
rusqlite = "=0.31.0"
fastembed = { version = "=4.9.1", default-features = false, features = ["hf-hub-rustls-tls"] }
