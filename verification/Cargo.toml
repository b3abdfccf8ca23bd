[package]
name = "moss"
version = "0.1.0"
edition = "2021"
publish = false

[dependencies]
clap = "4"
dialoguer = "0.11"
futures = "0.3"
indicatif = "0.17"
nix = { version = "0.27", features = ["fs"] }
thiserror = "1"
tracing = "0.1"
