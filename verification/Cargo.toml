[package]
name = "xwc"
version = "0.1.0"
edition = "2021"
publish = false

[dependencies]
bytesize = "2"
clap = { version = "4", features = ["derive"] }
glob = "0.3"
memchr = "2"
rayon = "1"
