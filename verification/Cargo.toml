[package]
name = "chess_store"
version = "0.1.0"
edition = "2021"
publish = false

[dependencies]
hex = "*"
diesel = { version = "*", features = ["sqlite"] }
