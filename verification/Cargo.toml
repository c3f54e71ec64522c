[package]
name = "holdem_server"
version = "0.1.0"
edition = "2021"
publish = false

[dependencies]
rand = "0.8"
serde_json = "1"
async-std = "1"
clap = "4"
