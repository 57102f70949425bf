[package]
name = "git_pack"
version = "0.1.0"
edition = "2021"
publish = false

[dependencies]
sha1_smol = "*"
flate2 = "*"
