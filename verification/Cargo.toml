[package]
name = "runandlog"
version = "0.1.0"
edition = "2021"
publish = false

[dependencies]
chrono = "0.4"
clap = { version = "4", features = ["derive"] }
libc = "0.2"
ratatui = "0.29"
serde = { version = "1", features = ["derive"] }
