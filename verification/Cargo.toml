[package]
name = "old_gods"
version = "0.1.0"
edition = "2021"
publish = false

[dependencies]
specs = "*"
log = "*"
