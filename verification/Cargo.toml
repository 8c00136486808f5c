[package]
name = "sabun"
version = "0.1.0"
edition = "2021"
publish = false

[dependencies]
similar = { version = "=2.7.0", features = ["unicode"] }
unicode-width = "=0.2.3"
syntaxmate = "=0.1.3"
git2 = { version = "=0.20.4", default-features = false }
notify = "=8.2.1"
