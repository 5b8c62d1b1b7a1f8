[package]
name = "db"
version = "0.1.0"
edition = "2021"
publish = false

[dependencies]
indexset = "=0.16.0"
rustyline = "=19.0.0"
