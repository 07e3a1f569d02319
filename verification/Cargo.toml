[package]
name = "iirs"
version = "0.1.0"
edition = "2021"
publish = false

[dependencies]
anyhow = "1"
clap = { version = "4", features = ["derive"] }
divsufsort = "*"
seq_io = "*"
