[package]
name = "twenty48"
version = "0.1.0"
edition = "2021"
publish = false

[dependencies]
savefile = "*"
savefile-derive = "*"
