[package]
name = "codecrafters_git"
version = "0.1.0"
edition = "2021"
publish = false

[dependencies]
clap = { version = "4", features = ["derive"] }
const-hex = "1"
flate2 = "1"
reqwest = { version = "0.12", default-features = false, features = ["rustls-tls"] }
sha1-checked = "*"
tokio = { version = "1", features = ["macros", "rt-multi-thread"] }
