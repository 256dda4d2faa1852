[package]
name = "cpp_amalgamate"
version = "0.1.0"
edition = "2021"
publish = false

[dependencies]
globset = "*"
anyhow = "*"
clap = { version = "*", features = ["derive"] }
log = "*"
termcolor = "*"
