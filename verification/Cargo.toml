[package]
name = "unsqfs_wrap"
version = "0.1.0"
edition = "2021"
publish = false

[dependencies]
thiserror = "*"
which = "*"
