[package]
name = "dot_templater"
version = "0.1.0"
edition = "2021"
publish = false

[dependencies]
clap = "2"
difference = "2"
regex = "1"
walkdir = "2"
