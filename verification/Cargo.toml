[package]
name = "tr_core"
version = "0.1.0"
edition = "2021"
publish = false

[dependencies]
clap = { version = "4", features = ["derive"] }
deunicode = "1"
gettext-rs = { version = "0.7", features = ["gettext-system"] }
regex = "1"
