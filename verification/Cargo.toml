[package]
name = "pixmaze"
version = "0.1.0"
edition = "2021"

[dependencies]
png = "0.16"
