[package]
name = "winhelp"
version = "0.1.0"
edition = "2021"
publish = false

[dependencies]
clap = { version = "4", features = ["derive"] }
image = { version = "0.25", default-features = false, features = ["bmp", "png"] }
miette = { version = "7", features = ["fancy"] }
thiserror = "2"
