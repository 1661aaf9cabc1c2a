[package]
name = "bloat"
version = "0.1.0"
edition = "2021"
publish = false

[dependencies]
unicode-width = "0.2"
ratatui = "0.29"
clap = { version = "4.5", features = ["derive"] }
clap_complete = { version = "4.5", features = ["unstable-dynamic"] }
anyhow = "1"
jwalk = "0.8"
libc = "0.2"
