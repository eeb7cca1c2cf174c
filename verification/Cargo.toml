[package]
name = "mygit"
version = "0.1.0"
edition = "2021"
publish = false

[dependencies]
sha1 = "0.10"
clap = { version = "4", features = ["derive"] }

[dev-dependencies]
hex = "0.4"
