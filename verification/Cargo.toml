[package]
name = "gitrw"
version = "0.1.0"
edition = "2021"
publish = false

[dependencies]
bstr = "1"
clap = { version = "4", features = ["derive"] }
flate2 = "1"
hex = "0.4"
libdeflater = "1"
memchr = "2"
memmap2 = "0.9"
rayon = "1"
regex = "1"
rs_sha1 = "*"
rustc-hash = "1"
