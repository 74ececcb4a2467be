[package]
name = "tracedbg"
version = "0.1.0"
edition = "2021"
publish = false

[dependencies]
goblin = "*"
gdbstub = "*"
gdbstub_arch = "*"
anyhow = "*"
clap = { version = "*", features = ["derive"] }
log = "*"
env_logger = "*"
tokio = { version = "*", features = ["net", "io-util", "rt", "sync", "macros", "time"] }
