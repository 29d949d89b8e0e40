[package]
name = "scfs"
version = "0.1.0"
edition = "2021"
publish = false

[dependencies]
clap = { version = "=4.6.7", features = ["derive"] }
ctrlc = "=3.5.2"
daemonize = "=0.5.0"
fuser = { version = "=0.14.0", default-features = false }
libc = "=0.2.190"
