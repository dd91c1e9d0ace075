[package]
name = "ship_cache"
version = "0.1.0"
edition = "2021"
publish = false

[dependencies]
indexmap = "2"
log = "0.4"
strum = "0.26"
strum_macros = "0.26"
