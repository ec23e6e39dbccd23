[package]
name = "crawlsched"
version = "0.1.0"
edition = "2021"
publish = false

[dependencies]
tldextract = "*"
clap = { version = "*", features = ["derive"] }
tokio = { version = "*", features = ["macros", "rt-multi-thread"] }
