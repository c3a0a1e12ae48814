[package]
name = "cliutils"
version = "0.1.0"
edition = "2021"
publish = false

[dependencies]
ansi_term = "0.12"
chrono = "0.4"
clap = "4"
rand = "0.9"
regex = "1"
