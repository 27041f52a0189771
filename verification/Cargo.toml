[package]
name = "qwarves"
version = "0.1.0"
edition = "2021"
publish = false

[dependencies]
quicksilver = { version = "0.3", default-features = false, features = ["fonts"] }
rand = "=0.7.3"
specs = "=0.16.1"
specs-derive = "=0.4.1"
