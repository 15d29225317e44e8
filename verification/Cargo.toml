[package]
name = "cgt_misere"
version = "0.1.0"
edition = "2021"
publish = false

[dependencies]
anyhow = "1"
clap = { version = "4", features = ["derive"] }
ctrlc = "3"
imgui = "*"
itertools = "*"
quickcheck = "1"
