[package]
name = "codecrafters-shell"
version = "0.2.0"
edition = "2021"
publish = false

[dependencies]
glob = "0.3"
os_pipe = "1"
rustyline = "14"
