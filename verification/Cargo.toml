[package]
name = "yz_basic_block"
version = "0.1.0"
edition = "2021"
publish = false

[dependencies]
either = "1"
serde = { version = "=1.0.229", features = ["derive"] }
thiserror = "=1.0.69"
