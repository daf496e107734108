[package]
name = "openmem"
version = "0.1.0"
edition = "2021"
publish = false

[dependencies]
clap = "4"
regex = "1"
dirs = "*"
