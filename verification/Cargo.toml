[package]
name = "tulya"
version = "0.1.0"
edition = "2021"
publish = false

[dependencies]
bitvec = "1"
clap = { version = "4", features = ["derive"] }
colored = "2"
comfy-table = "7"
