[package]
name = "rustychain"
version = "0.1.0"
edition = "2021"
publish = false

[dependencies]
sha2 = "0.10"
clap = "4"
thiserror = "1"
