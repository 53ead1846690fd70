[package]
name = "set_parser"
version = "0.1.0"
edition = "2021"
publish = false

[dependencies]
anyhow = "=1.0.104"
clap = { version = "=4.6.7", features = ["derive"] }
figlet-rs = "=0.1.5"
pest = "=2.9.4"
thiserror = "=1.0.69"
