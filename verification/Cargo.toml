[package]
name = "retainer"
version = "0.1.0"
edition = "2021"
publish = false

[dependencies]
rand = "0.9"
async-lock = "3"
async-io = "2"
futures-lite = "2"
log = "0.4"
