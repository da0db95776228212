[package]
name = "ninja_rs"
version = "0.1.0"
edition = "2021"
publish = false

[dependencies]
atty = "0.2"
clap = { version = "4", features = ["derive"] }
memmap2 = "*"
rayon = "1"
terminal_size = "*"
tracing = "0.1"

[dev-dependencies]
rand = "*"
