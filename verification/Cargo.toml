[package]
name = "ipmap"
version = "0.1.0"
edition = "2021"
publish = false

[dependencies]
ipnet = "=2.12.2"
csv = "=1.4.0"
flate2 = "=1.1.10"
heck = "=0.5.0"
indexmap = "=2.14.2"
rangemap = "1"
half = "2"
