[package]
name = "doomsayer"
version = "0.1.0"
edition = "2021"
publish = false

[dependencies]
mammut = "*"
structopt = "*"
serde_json = "*"
