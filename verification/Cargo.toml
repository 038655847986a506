[package]
name = "rpmtools"
version = "0.1.0"
edition = "2021"
publish = false

[dependencies]
argh = "=0.1.19"
rpm = { version = "=0.18.4", default-features = false, features = ["gzip-compression", "zstd-compression", "xz-compression", "bzip2-compression"] }
