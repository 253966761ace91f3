[package]
name = "rcpsp"
version = "0.1.0"
edition = "2021"
publish = false

[dependencies]
fixedbitset = "0.4"
ddo = "2"
clap = { version = "4", features = ["derive"] }
