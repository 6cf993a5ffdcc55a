[package]
name = "kenlmrs"
version = "0.1.0"
edition = "2021"
publish = false

[dependencies]
flate2 = "1"
memmap2 = "0.9"
thiserror = "1"
serde = { version = "1", features = ["derive"] }
