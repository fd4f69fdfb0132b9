[package]
name = "word_alignment"
version = "0.1.0"
edition = "2021"
publish = false

[dependencies]
regex = "*"
rust_xlsxwriter = "*"
serde = { version = "*", features = ["derive"] }
