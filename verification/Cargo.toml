[package]
name = "fastgrep"
version = "0.1.6"
edition = "2021"
publish = false

[dependencies]
regex = "1"
memchr = "2"
itoa = "1"
serde = { version = "1", features = ["derive"] }
serde_json = "1"
clap = { version = "4", features = ["derive", "env"] }
kanal = "*"
memmap2 = "*"
dirs = "*"
bitcode = { version = "*", features = ["serde"] }
