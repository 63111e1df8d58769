[package]
name = "autocshell"
version = "0.5.2"
edition = "2021"
publish = false

[dependencies]
clap = "2.33"
