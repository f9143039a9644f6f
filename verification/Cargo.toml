[package]
name = "lockfree_list"
version = "0.1.0"
edition = "2021"
publish = false

[dependencies]
seize = "0.2"
