[package]
name = "portcall"
version = "0.1.0"
edition = "2021"
publish = false

[dependencies]
serialport = { version = "=4.10.1", default-features = false }
tuie = "=0.2.4"
