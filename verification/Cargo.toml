[package]
name = "amber"
version = "0.1.0"
edition = "2021"
publish = false

[dependencies]
anyhow = "1"
clap = { version = "4", features = ["derive"] }
memmap2 = "0.9"
mimalloc = "*"
thiserror = "*"
typed-builder = "*"
unicode-general-category = "*"
