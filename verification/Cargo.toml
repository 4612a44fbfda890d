[package]
name = "recalc"
version = "0.1.0"
edition = "2021"
publish = false

[dependencies]
malachite = "*"
fastrand = "*"
ctrlc = "*"
clap = { version = "*", features = ["derive"] }
