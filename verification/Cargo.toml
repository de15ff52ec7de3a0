[package]
name = "rslogo"
version = "0.1.0"
edition = "2021"
publish = false

[dependencies]
clap = { version = "=4.6.7", features = ["derive"] }
unsvg = "=1.1.2"
