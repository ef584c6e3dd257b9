[package]
name = "paragraphs"
version = "0.1.0"
edition = "2021"
publish = false

[dependencies]
kuchikikiki = "*"
html5ever = "*"
serde = { version = "1", features = ["derive"] }
serde_json = "1"
