[package]
name = "bumps"
version = "0.1.0"
edition = "2021"
publish = false

[dependencies]
nom = "7"
clap = { version = "4", features = ["derive"] }
diesel = { version = "2", features = ["sqlite"] }
num-derive = "0.4"
num-traits = "0.2"
