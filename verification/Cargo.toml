[package]
name = "loop_bastard"
version = "0.1.0"
edition = "2021"
publish = false

[dependencies]
crossbeam = "*"
log = "*"
midir = "*"
simple_logger = "*"
spin_sleep = "*"
