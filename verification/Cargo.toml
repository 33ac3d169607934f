[package]
name = "structopt_toml"
version = "0.1.0"
edition = "2021"
publish = false

[dependencies]
toml = "=1.1.7"
clap = { version = "=4.6.7", features = ["string"] }
