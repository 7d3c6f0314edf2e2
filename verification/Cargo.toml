[package]
name = "mtt_table"
version = "0.1.0"
edition = "2021"
publish = false

[dependencies]
borsh = { version = "=1.8.1", features = ["derive"] }
race-api = "=0.2.6"
